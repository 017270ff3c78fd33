//! What the schedule renderer computes, as opposed to draws: the
//! class card's data record and the deterministic colour choice for a
//! course name.

use vstd::prelude::*;
use std::collections::hash_map::DefaultHasher;
use std::hash::Hash;
use std::hash::Hasher;

verus! {

/// One class card of a rendered schedule: code, name, a detail line,
/// the meeting as (weekday index, start minute, end minute), and the
/// optional instructor and room.
pub struct ClassInformation {
    pub code: i32,
    pub name: String,
    pub detail: String,
    pub time: (i32, i32, i32),
    pub instructor: Option<String>,
    pub room: Option<String>,
}

/// The digest the standard hasher assigns a string; it depends on the
/// string's characters alone.
pub uninterp spec fn default_hash_of(s: Seq<char>) -> u64;

/// Relies on std::collections::hash_map::DefaultHasher: built with
/// `new`, its keys are fixed, so the digest is a function of the
/// hashed bytes alone.
#[verifier::external_body]
fn hash_str(s: &str) -> (digest: u64)
    ensures
        digest == default_hash_of(s@),
{
    let mut hasher = DefaultHasher::new();
    s.hash(&mut hasher);
    hasher.finish()
}

/// The palette entry at `index`, one of eighteen dark colours.
pub open spec fn spec_palette_color(index: int) -> Seq<char> {
    if index == 0 {
        "darkmagenta"@
    } else if index == 1 {
        "darkred"@
    } else if index == 2 {
        "darkslategrey"@
    } else if index == 3 {
        "darkblue"@
    } else if index == 4 {
        "darkgreen"@
    } else if index == 5 {
        "darkcyan"@
    } else if index == 6 {
        "black"@
    } else if index == 7 {
        "darkorange"@
    } else if index == 8 {
        "darkviolet"@
    } else if index == 9 {
        "darkslateblue"@
    } else if index == 10 {
        "darkorchid"@
    } else if index == 11 {
        "darkkhaki"@
    } else if index == 12 {
        "darkgoldenrod"@
    } else if index == 13 {
        "mediumblue"@
    } else if index == 14 {
        "midnightblue"@
    } else if index == 15 {
        "maroon"@
    } else if index == 16 {
        "firebrick"@
    } else {
        "dimgrey"@
    }
}

/// Pick the card colour for a name: the palette entry its digest
/// selects, so equal names always draw in the same colour.
pub fn choose_color(s: &str) -> (color: &'static str)
    ensures
        color@ == spec_palette_color(default_hash_of(s@) as int % 18),
{
    let digest = hash_str(s);
    let index = digest % 18;
    match index {
        0 => "darkmagenta",
        1 => "darkred",
        2 => "darkslategrey",
        3 => "darkblue",
        4 => "darkgreen",
        5 => "darkcyan",
        6 => "black",
        7 => "darkorange",
        8 => "darkviolet",
        9 => "darkslateblue",
        10 => "darkorchid",
        11 => "darkkhaki",
        12 => "darkgoldenrod",
        13 => "mediumblue",
        14 => "midnightblue",
        15 => "maroon",
        16 => "firebrick",
        _ => "dimgrey",
    }
}

} // verus!
