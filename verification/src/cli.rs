//! The command surface and the registry transition each command performs.
//! The outcome tells the caller what happened and what to report; commands
//! that change the registry (`Add`, `Remove`, `Rename`) leave it to the
//! caller to persist the new state and to do any I/O.
use vstd::prelude::*;

use crate::config::{derive_alias, derived_alias, Config};
use crate::fuzzy::{find_match, find_match_spec};
use crate::model::{m_has, m_insert, m_remove, m_val};

verus! {

/// One invocation's request, as parsed from the command line.
pub enum Command {
    /// Register the working directory under `alias` (derived when absent).
    Add { alias: Option<String> },
    /// Enumerate all (alias, path) pairs.
    List,
    /// Resolve `name` to a path; `code` asks for an editor instead of a cd.
    Go { name: String, code: bool },
    /// Delete an alias.
    Remove { alias: String },
    /// Move an alias to a new name.
    Rename { old: String, new: String },
    /// Install the shell integration (outside the registry's concern).
    Install,
    /// Remove the shell integration (outside the registry's concern).
    Uninstall,
}

/// The parsed command line: just the chosen command.
pub struct Cli {
    pub command: Command,
}

/// What a command did to the registry, and what to report.
pub enum Outcome {
    /// `Add` bound this alias; the registry needs saving.
    Added { alias: String },
    /// `List` read the registry; nothing changed.
    Listed,
    /// `Go` resolved the name to this path (editor wish passed through).
    Resolved { path: String, code: bool },
    /// `Go` found an empty registry.
    NoMatch,
    /// `Remove` deleted the alias; the registry needs saving.
    Removed,
    /// `Rename` moved the alias; the registry needs saving.
    Renamed,
    /// `Remove` or `Rename` named an absent alias; nothing changed.
    NotFound,
    /// `Install` or `Uninstall`: not the registry's concern.
    Delegated,
}

/// Apply one command to the registry. `cwd` is the caller's working
/// directory (used only by `Add`). The ensures spell out, per command,
/// exactly how the registry changes and which outcome is reported.
pub fn step(cfg: &mut Config, cmd: Command, cwd: &str) -> (r: Outcome)
    requires
        old(cfg).wf(),
    ensures
        final(cfg).wf(),
        cmd matches Command::Add { alias } ==> ({
            let a = if alias is Some {
                alias->0@
            } else {
                derived_alias(cwd@)
            };
            &&& final(cfg).entries() == m_insert(old(cfg).entries(), a, cwd@)
            &&& (r matches Outcome::Added { alias: ra } && ra@ == a)
        }),
        cmd is List ==> *final(cfg) == *old(cfg) && r is Listed,
        cmd matches Command::Go { name, code } ==> *final(cfg) == *old(cfg) && (match r {
            Outcome::Resolved { path, code: rc } => find_match_spec(old(cfg).entries(), name@)
                == Some(path@) && rc == code,
            Outcome::NoMatch => old(cfg).entries().len() == 0,
            _ => false,
        }),
        cmd matches Command::Remove { alias } ==> ({
            &&& final(cfg).entries() == m_remove(old(cfg).entries(), alias@)
            &&& (if m_has(old(cfg).entries(), alias@) {
                r is Removed
            } else {
                r is NotFound && final(cfg).entries() == old(cfg).entries()
            })
        }),
        cmd matches Command::Rename { old: o, new: n } ==> (if m_has(old(cfg).entries(), o@) {
            r is Renamed && final(cfg).entries() == m_insert(
                m_remove(old(cfg).entries(), o@),
                n@,
                m_val(old(cfg).entries(), o@)->Some_0,
            )
        } else {
            r is NotFound && final(cfg).entries() == old(cfg).entries()
        }),
        cmd is Install || cmd is Uninstall ==> *final(cfg) == *old(cfg) && r is Delegated,
{
    match cmd {
        Command::Add { alias } => {
            let a = match alias {
                Some(a) => a,
                None => derive_alias(cwd),
            };
            let shown = a.clone();
            cfg.insert(a, String::from_str(cwd));
            Outcome::Added { alias: shown }
        },
        Command::List => Outcome::Listed,
        Command::Go { name, code } => {
            match find_match(cfg, name.as_str()) {
                Some(path) => Outcome::Resolved { path, code },
                None => Outcome::NoMatch,
            }
        },
        Command::Remove { alias } => {
            if cfg.remove(&alias) {
                Outcome::Removed
            } else {
                Outcome::NotFound
            }
        },
        Command::Rename { old: o, new: n } => {
            if cfg.rename(&o, n) {
                Outcome::Renamed
            } else {
                Outcome::NotFound
            }
        },
        Command::Install => Outcome::Delegated,
        Command::Uninstall => Outcome::Delegated,
    }
}

} // verus!
