//! The two ways of placing a skill, and the platforms they are carried out on.

use crate::text::same_text;
use vstd::prelude::*;

verus! {

/// How a skill is placed in an agent's directory.
#[derive(Debug, Clone, Copy, PartialEq, Eq, Structural)]
pub enum SyncMode {
    Symlink,
    Copy,
}

/// The name of a mode in configuration.
pub open spec fn mode_text(mode: SyncMode) -> Seq<char> {
    match mode {
        SyncMode::Symlink => "symlink"@,
        SyncMode::Copy => "copy"@,
    }
}

/// The mode that a configured text stands for: copies are made only where they are
/// asked for by name, and everything else means links.
pub open spec fn chosen_mode(configured: Option<Seq<char>>) -> SyncMode {
    if configured == Some("copy"@) {
        SyncMode::Copy
    } else {
        SyncMode::Symlink
    }
}

impl SyncMode {
    /// The name of this mode in configuration.
    pub fn as_str(&self) -> (text: &'static str)
        ensures
            text@ == mode_text(*self),
            *self == SyncMode::Symlink ==> text@ == "symlink"@,
            *self == SyncMode::Copy ==> text@ == "copy"@,
    {
        match self {
            SyncMode::Symlink => "symlink",
            SyncMode::Copy => "copy",
        }
    }
}

/// The mode for a tool, given what is configured for it. Every tool has the same
/// default, so the key makes no difference.
pub fn sync_mode_for_tool(_tool_key: &str, configured_mode: Option<&str>) -> (mode: SyncMode)
    ensures
        mode == chosen_mode(
            match configured_mode {
                Some(text) => Some(text@),
                None => None,
            },
        ),
        mode == SyncMode::Copy <==> (configured_mode is Some && configured_mode->0@ == "copy"@),
{
    match configured_mode {
        Some(text) => if same_text(text, "copy") {
            SyncMode::Copy
        } else {
            SyncMode::Symlink
        },
        None => SyncMode::Symlink,
    }
}

/// A configured mode name is read back as the mode that it names.
pub proof fn law_mode_name_round_trips(mode: SyncMode)
    ensures
        chosen_mode(Some(mode_text(mode))) == mode,
{
    reveal_strlit("symlink");
    reveal_strlit("copy");
    assert("symlink"@.len() != "copy"@.len());
}

/// A text that names no mode means the same as no configuration at all.
pub proof fn law_unknown_mode_is_the_default(text: Seq<char>)
    requires
        text != mode_text(SyncMode::Symlink),
        text != mode_text(SyncMode::Copy),
    ensures
        chosen_mode(Some(text)) == chosen_mode(None),
{
}

/// What the host system offers for links.
#[derive(Debug, Clone, Copy, PartialEq, Eq, Structural)]
pub enum Platform {
    /// Symbolic links are always there.
    Unix,
    /// Symbolic links may be refused; directory junctions and copies stand in for them.
    Windows,
    /// There are no links.
    Other,
}

} // verus!
