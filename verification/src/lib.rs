//! An interactive diff triage library: it parses unified-diff text into a
//! per-file, line-addressable model, pairs removed lines with plausibly
//! corresponding added lines, drives a tri-state accept/reject session over
//! the resulting changes, writes the accepted subset back into file content,
//! and holds the navigation state of the terminal display. Every operation
//! carries a verified contract; terminal and file input and output stay with
//! the caller.
pub mod args;
pub mod diff;
pub mod display;
pub mod model;
pub mod pairing;
pub mod parser;
pub mod text;
pub mod triage;
pub mod ui;

use vstd::prelude::*;

verus! {

/// Color class of a diff line, derived from its leading marker byte.
#[derive(Clone, Copy, PartialEq, Eq, Structural, Debug)]
pub enum LineColor {
    Red,
    Green,
    White,
}

/// The colour a line's text earns: red for a removal marker, green for an
/// addition marker, white otherwise.
pub open spec fn spec_line_color(t: Seq<u8>) -> LineColor {
    if t.len() > 0 && t[0] == crate::text::DASH {
        LineColor::Red
    } else if t.len() > 0 && t[0] == crate::text::PLUS {
        LineColor::Green
    } else {
        LineColor::White
    }
}

/// Classifies a diff line for display: removed lines are red, added lines
/// are green, everything else is white.
pub fn line_color(text: &Vec<u8>) -> (r: LineColor)
    ensures
        r == spec_line_color(text@),
{
    if text.len() > 0 && text[0] == crate::text::DASH {
        LineColor::Red
    } else if text.len() > 0 && text[0] == crate::text::PLUS {
        LineColor::Green
    } else {
        LineColor::White
    }
}

} // verus!
