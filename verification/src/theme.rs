//! Icons and colors that stand for task statuses.
use vstd::prelude::*;
use crate::strings::str_eq;

verus! {

/// The colors of the dashboard's palette that stand for statuses.
#[derive(PartialEq, Eq, Structural, Clone, Copy, Debug)]
pub enum ThemeColor {
    Green,
    Blue,
    Red,
    Yellow,
    Overlay0,
    Text,
}

/// The color of a status.
pub open spec fn color_of(status: Seq<char>) -> ThemeColor {
    if status == "in_progress"@ {
        ThemeColor::Green
    } else if status == "open"@ {
        ThemeColor::Blue
    } else if status == "blocked"@ {
        ThemeColor::Red
    } else if status == "deferred"@ {
        ThemeColor::Yellow
    } else if status == "closed"@ || status == "done"@ {
        ThemeColor::Overlay0
    } else {
        ThemeColor::Text
    }
}

/// The icon of a status.
pub open spec fn icon_of(status: Seq<char>) -> Seq<char> {
    if status == "in_progress"@ {
        "●"@
    } else if status == "open"@ {
        "○"@
    } else if status == "blocked"@ {
        "◌"@
    } else if status == "deferred"@ {
        "◊"@
    } else if status == "closed"@ || status == "done"@ {
        "✓"@
    } else {
        "·"@
    }
}

/// The palette color in which a status is shown.
pub fn status_color(status: &str) -> (c: ThemeColor)
    ensures
        c == color_of(status@),
{
    if str_eq(status, "in_progress") {
        ThemeColor::Green
    } else if str_eq(status, "open") {
        ThemeColor::Blue
    } else if str_eq(status, "blocked") {
        ThemeColor::Red
    } else if str_eq(status, "deferred") {
        ThemeColor::Yellow
    } else if str_eq(status, "closed") || str_eq(status, "done") {
        ThemeColor::Overlay0
    } else {
        ThemeColor::Text
    }
}

/// The icon shown before a status.
pub fn status_icon(status: &str) -> (icon: &'static str)
    ensures
        icon@ == icon_of(status@),
{
    if str_eq(status, "in_progress") {
        "●"
    } else if str_eq(status, "open") {
        "○"
    } else if str_eq(status, "blocked") {
        "◌"
    } else if str_eq(status, "deferred") {
        "◊"
    } else if str_eq(status, "closed") || str_eq(status, "done") {
        "✓"
    } else {
        "·"
    }
}

} // verus!
