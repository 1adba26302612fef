//! Selection of the end-of-line sequence that separates payloads inside
//! one output file. The selector names come from a fixed enumerated set;
//! any other name falls back to a line feed.

use vstd::prelude::*;
use crate::text::str_eq;

verus! {

/// The end-of-line sequence selected by `name`: one of the recognised
/// selector names maps to its separator, anything else to `"\n"`.
pub open spec fn eol_of(name: Seq<char>) -> Seq<char> {
    if name == "CR+LF"@ {
        "\r\n"@
    } else if name == "LF"@ {
        "\n"@
    } else if name == "CR"@ {
        "\r"@
    } else if name == "VT"@ {
        "\u{000B}"@
    } else if name == "FF"@ {
        "\u{000C}"@
    } else if name == "NEL"@ {
        "\u{0085}"@
    } else if name == "LS"@ {
        "\u{2028}"@
    } else if name == "PS"@ {
        "\u{2029}"@
    } else {
        "\n"@
    }
}

/// Maps an end-of-line selector name to the separator it stands for;
/// an unrecognised name maps to `"\n"`.
pub fn map_eol(value: &str) -> (r: &str)
    ensures
        r@ == eol_of(value@),
{
    if str_eq(value, "CR+LF") {
        "\r\n"
    } else if str_eq(value, "LF") {
        "\n"
    } else if str_eq(value, "CR") {
        "\r"
    } else if str_eq(value, "VT") {
        "\u{000B}"
    } else if str_eq(value, "FF") {
        "\u{000C}"
    } else if str_eq(value, "NEL") {
        "\u{0085}"
    } else if str_eq(value, "LS") {
        "\u{2028}"
    } else if str_eq(value, "PS") {
        "\u{2029}"
    } else {
        "\n"
    }
}

} // verus!
