//! Session state that outlives a run: theme, open files and display options.
use std::path::PathBuf;
use vstd::prelude::*;

verus! {

/// A file system path, carried through the session state unchanged.
#[verifier::external_type_specification]
#[verifier::external_body]
pub struct ExPathBuf(PathBuf);

/// The colour theme the user picked.
#[derive(Clone, Copy, Debug, PartialEq, Eq, Structural)]
pub enum ThemeChoice {
    System,
    Dark,
    Light,
}

pub open spec fn theme_label(t: ThemeChoice) -> Seq<char> {
    match t {
        ThemeChoice::System => "System"@,
        ThemeChoice::Dark => "Dark"@,
        ThemeChoice::Light => "Light"@,
    }
}

impl ThemeChoice {
    /// Every theme, in the order a menu lists them.
    pub fn all() -> (r: [ThemeChoice; 3])
        ensures
            r@ == seq![ThemeChoice::System, ThemeChoice::Dark, ThemeChoice::Light],
    {
        [ThemeChoice::System, ThemeChoice::Dark, ThemeChoice::Light]
    }

    /// The name shown for the theme.
    pub fn label(self) -> (r: &'static str)
        ensures
            r@ == theme_label(self),
    {
        match self {
            ThemeChoice::System => "System",
            ThemeChoice::Dark => "Dark",
            ThemeChoice::Light => "Light",
        }
    }
}

impl Default for ThemeChoice {
    fn default() -> (r: ThemeChoice)
        ensures
            r == ThemeChoice::System,
    {
        ThemeChoice::System
    }
}

/// What the editor remembers between sessions.
#[derive(Clone, Debug)]
pub struct PersistentState {
    pub theme: ThemeChoice,
    pub open_files: Vec<PathBuf>,
    pub active_file: Option<PathBuf>,
    pub last_directory: Option<PathBuf>,
    pub display_user_strref: bool,
    pub display_hex_strref: bool,
}

impl Default for PersistentState {
    /// The state of a first run: system theme, no files, plain string references.
    fn default() -> (r: PersistentState)
        ensures
            r.theme == ThemeChoice::System,
            r.open_files@.len() == 0,
            r.active_file is None,
            r.last_directory is None,
            !r.display_user_strref,
            !r.display_hex_strref,
    {
        PersistentState {
            theme: ThemeChoice::System,
            open_files: Vec::new(),
            active_file: None,
            last_directory: None,
            display_user_strref: false,
            display_hex_strref: false,
        }
    }
}

} // verus!
