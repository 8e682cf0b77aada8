//! Themes: a name together with a dark/light classification.

use vstd::prelude::*;

verus! {

/// Whether a theme is a dark or a light style.
#[derive(Clone, Copy, Debug, PartialEq, Eq, Structural)]
pub enum ThemeType {
    Dark,
    Light,
}

/// The canonical string form of a theme type.
pub open spec fn theme_type_chars(t: ThemeType) -> Seq<char> {
    match t {
        ThemeType::Dark => "Dark"@,
        ThemeType::Light => "Light"@,
    }
}

impl ThemeType {
    /// The canonical string form, `"Dark"` or `"Light"`.
    pub fn label(&self) -> (r: String)
        ensures
            r@ == theme_type_chars(*self),
    {
        match self {
            ThemeType::Dark => "Dark".to_owned(),
            ThemeType::Light => "Light".to_owned(),
        }
    }
}

/// A named visual style with a light/dark classification.
#[derive(Clone, Debug)]
pub struct Theme {
    pub name: String,
    pub theme_type: ThemeType,
}

} // verus!
