//! The light/dark theme preference of the site's pages.

use vstd::prelude::*;
use vstd::string::StringExecFns;

verus! {

/// The storage key under which the preference is kept.
pub const THEME_STORAGE_KEY: &'static str = "theme";

/// What recording a preference changes: the stored value, and whether the
/// page carries the `dark` class.
pub struct ThemeChange {
    pub stored_value: String,
    pub dark_class: bool,
}

/// The stored value of a preference.
pub open spec fn pref_value(dark: bool) -> Seq<char> {
    if dark {
        "dark"@
    } else {
        "light"@
    }
}

/// Records a preference: `dark` or `light` is stored and the page class follows.
pub fn set_pref(dark: bool) -> (r: ThemeChange)
    ensures
        r.stored_value@ == pref_value(dark),
        r.dark_class == dark,
{
    let stored_value = if dark {
        String::from_str("dark")
    } else {
        String::from_str("light")
    };
    ThemeChange { stored_value, dark_class: dark }
}

/// The preference in effect: the stored one where there is one, else the
/// system's color-scheme preference.
pub fn current_pref(stored: Option<&str>, prefers_dark: bool) -> (r: bool)
    ensures
        r == match stored {
            Some(v) => v@ == "dark"@,
            None => prefers_dark,
        },
{
    match stored {
        Some(v) => String::from_str(v) == String::from_str("dark"),
        None => prefers_dark,
    }
}

} // verus!
