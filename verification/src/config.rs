//! The configuration: the few settings that the user can change.

use vstd::prelude::*;
use vstd::string::StringExecFns;
use crate::error::QuartzError;
use crate::text;

verus! {

/// The model of the configuration.
pub struct ConfigView {
    pub editor: Seq<char>,
    pub colors: bool,
}

/// What the user prefers.
pub struct Preferences {
    /// The editor to open files with.
    pub editor: String,
}

/// How things are shown.
pub struct Ui {
    /// Whether the output is coloured.
    pub colors: bool,
}

/// The configuration.
pub struct Config {
    pub preferences: Preferences,
    pub ui: Ui,
}

impl View for Config {
    type V = ConfigView;

    open spec fn view(&self) -> ConfigView {
        ConfigView { editor: self.preferences.editor@, colors: self.ui.colors }
    }
}

/// The text of a truth value.
pub open spec fn bool_text(b: bool) -> Seq<char> {
    if b {
        "true"@
    } else {
        "false"@
    }
}

/// The value of the setting `key`. The settings are `preferences.editor`
/// and `ui.colors`.
pub open spec fn setting(c: ConfigView, key: Seq<char>) -> Option<Seq<char>> {
    if key == "preferences.editor"@ {
        Some(c.editor)
    } else if key == "ui.colors"@ {
        Some(bool_text(c.colors))
    } else {
        None
    }
}

/// The configuration with the setting `key` set to `value`. Colours are
/// on for the value `true` and off for any other.
pub open spec fn with_setting(c: ConfigView, key: Seq<char>, value: Seq<char>) -> Option<ConfigView> {
    if key == "preferences.editor"@ {
        Some(ConfigView { editor: value, ..c })
    } else if key == "ui.colors"@ {
        Some(ConfigView { colors: value == "true"@, ..c })
    } else {
        None
    }
}

impl Config {
    /// The configuration of a new project: the editor `vim`, colours on.
    pub fn new() -> (c: Self)
        ensures
            c@ == (ConfigView { editor: "vim"@, colors: true }),
    {
        Config {
            preferences: Preferences { editor: String::from_str("vim") },
            ui: Ui { colors: true },
        }
    }

    /// The value of the setting `key`. A key that names no setting is
    /// refused.
    pub fn get(&self, key: &str) -> (r: Result<String, QuartzError>)
        ensures
            match r {
                Ok(v) => setting(self@, key@) == Some(v@),
                Err(e) => e == QuartzError::MalformedInput && setting(self@, key@).is_none(),
            },
    {
        if text::same(key, "preferences.editor") {
            Ok(self.preferences.editor.clone())
        } else if text::same(key, "ui.colors") {
            if self.ui.colors {
                Ok(String::from_str("true"))
            } else {
                Ok(String::from_str("false"))
            }
        } else {
            Err(QuartzError::MalformedInput)
        }
    }

    /// Sets the setting `key` to `value`. A key that names no setting is
    /// refused and changes nothing.
    pub fn set(&mut self, key: &str, value: &str) -> (r: Result<(), QuartzError>)
        ensures
            match with_setting(old(self)@, key@, value@) {
                Some(c) => r.is_ok() && final(self)@ == c,
                None => r == Err::<(), QuartzError>(QuartzError::MalformedInput) && final(self)@
                    == old(self)@,
            },
    {
        if text::same(key, "preferences.editor") {
            self.preferences.editor = value.to_owned();
            Ok(())
        } else if text::same(key, "ui.colors") {
            self.ui.colors = text::same(value, "true");
            Ok(())
        } else {
            Err(QuartzError::MalformedInput)
        }
    }
}

} // verus!
