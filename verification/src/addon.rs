//! Addon protocol types: the kinds of configuration fields an addon declares
//! and the events it prints on its standard output.

use vstd::prelude::*;

verus! {

/// Kind of an addon configuration field (plain text by default).
#[derive(Debug, Clone, Copy, PartialEq, Eq)]
pub enum ConfigFieldKind {
    Text,
    Secret,
    Select,
    Number,
    Integer,
}

impl Default for ConfigFieldKind {
    fn default() -> (k: Self)
        ensures
            k == ConfigFieldKind::Text,
    {
        ConfigFieldKind::Text
    }
}

/// An event line printed by an addon.
#[derive(Debug, Clone)]
pub enum AddonEvent {
    Hello { protocol_version: u32, addon_api_version: u32, capabilities: Vec<String> },
    Progress { id: u64, percent: u8 },
    Log { level: String, message: String },
}

} // verus!
