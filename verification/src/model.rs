//! Provider-agnostic data model shared across all autostart providers.
use vstd::prelude::*;

verus! {

/// Whether an autostart entry applies to the current user or the whole system.
#[derive(Debug, Clone, Copy, PartialEq, Eq, Structural)]
pub enum Scope {
    /// User-level autostart (e.g. `~/.config/autostart`, systemd `--user` units).
    User,
    /// System-level autostart (e.g. `/etc/xdg/autostart`, systemd system units).
    System,
}

/// A single autostart item, normalized across providers.
///
/// `id` is stable and unique within a provider; pair it with `source` (the provider
/// id) to address an entry unambiguously across the whole registry.
#[derive(Debug, Clone)]
pub struct AutostartEntry {
    /// Stable, unique within a provider (e.g. a `.desktop` file stem or a unit name).
    pub id: String,
    /// Human-readable name for display.
    pub display_name: String,
    /// Optional longer description.
    pub description: Option<String>,
    /// The command that runs at startup.
    pub command: String,
    /// Optional icon name or path.
    pub icon: Option<String>,
    /// Whether the entry is currently enabled.
    pub enabled: bool,
    /// The id of the provider that produced this entry, e.g. `"systemd-user"`.
    pub source: String,
    /// Whether the entry is user- or system-scoped.
    pub scope: Scope,
}

/// An autostart entry, mathematically.
pub struct EntryView {
    pub id: Seq<char>,
    pub display_name: Seq<char>,
    pub description: Option<Seq<char>>,
    pub command: Seq<char>,
    pub icon: Option<Seq<char>>,
    pub enabled: bool,
    pub source: Seq<char>,
    pub scope: Scope,
}

/// The text of an optional string.
pub open spec fn opt_view(o: Option<String>) -> Option<Seq<char>> {
    match o {
        Some(s) => Some(s@),
        None => None,
    }
}

impl View for AutostartEntry {
    type V = EntryView;

    open spec fn view(&self) -> EntryView {
        EntryView {
            id: self.id@,
            display_name: self.display_name@,
            description: opt_view(self.description),
            command: self.command@,
            icon: opt_view(self.icon),
            enabled: self.enabled,
            source: self.source@,
            scope: self.scope,
        }
    }
}

/// The views of a list of entries.
pub open spec fn entries_view(es: Seq<AutostartEntry>) -> Seq<EntryView> {
    es.map_values(|e: AutostartEntry| e@)
}

/// A copy of an optional string.
pub fn copy_opt(o: &Option<String>) -> (r: Option<String>)
    ensures
        opt_view(r) == opt_view(*o),
{
    match o {
        Some(s) => Some(s.clone()),
        None => None,
    }
}

impl AutostartEntry {
    /// A copy of this entry.
    pub fn duplicate(&self) -> (r: AutostartEntry)
        ensures
            r@ == self@,
    {
        AutostartEntry {
            id: self.id.clone(),
            display_name: self.display_name.clone(),
            description: copy_opt(&self.description),
            command: self.command.clone(),
            icon: copy_opt(&self.icon),
            enabled: self.enabled,
            source: self.source.clone(),
            scope: self.scope,
        }
    }
}

} // verus!
