//! The names by which scripts refer to keys, and the key codes they stand
//! for.

use vstd::prelude::*;
use vstd::string::StrSliceExecFns;
use crate::names::same_text;

verus! {

/// The key code that the name `name` stands for: a digit or a lower-case
/// letter stands for the key of that digit or letter, and the arrow and shift
/// keys go by their names.
pub open spec fn spec_key_code(name: Seq<char>) -> Option<u16> {
    if name.len() == 1 && 0x30 <= name[0] as u32 <= 0x39 {
        Some(name[0] as u16)
    } else if name.len() == 1 && 0x61 <= name[0] as u32 <= 0x7a {
        Some((name[0] as u32 - 0x20) as u16)
    } else if name == "right"@ {
        Some(0xff53)
    } else if name == "left"@ {
        Some(0xff51)
    } else if name == "down"@ {
        Some(0xff54)
    } else if name == "up"@ {
        Some(0xff52)
    } else if name == "lshift"@ {
        Some(0xffe1)
    } else if name == "rshift"@ {
        Some(0xffe2)
    } else {
        None
    }
}

/// The key code that the name `name` stands for.
pub fn key_code(name: &str) -> (code: Option<u16>)
    ensures
        code == spec_key_code(name@),
{
    if name.unicode_len() == 1 {
        let c = name.get_char(0) as u32;
        if 0x30 <= c && c <= 0x39 {
            return Some(c as u16);
        }
        if 0x61 <= c && c <= 0x7a {
            return Some((c - 0x20) as u16);
        }
    }
    if same_text(name, "right") {
        Some(0xff53)
    } else if same_text(name, "left") {
        Some(0xff51)
    } else if same_text(name, "down") {
        Some(0xff54)
    } else if same_text(name, "up") {
        Some(0xff52)
    } else if same_text(name, "lshift") {
        Some(0xffe1)
    } else if same_text(name, "rshift") {
        Some(0xffe2)
    } else {
        None
    }
}

} // verus!
