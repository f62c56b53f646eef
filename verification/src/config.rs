//! The shape of a user-supplied color theme: seven color names or codes,
//! one per place the interface paints. Reading the file and parsing the
//! colors happen outside; this is the value they produce.

use vstd::prelude::*;

verus! {

/// A color theme as configured, each entry the textual form of a color.
pub struct ThemeConfig {
    pub text: String,
    pub text_dark: String,
    pub text_completed: String,
    pub item_highlight: String,
    pub active_highlight: String,
    pub inactive_highlight: String,
    pub highlight_text_secondary: String,
}

} // verus!
