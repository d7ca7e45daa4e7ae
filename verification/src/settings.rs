//! Persistent preferences: `~/.config/leyden/settings.ini`, an INI file.
//!
//! Deliberately **not** GSettings, which needs a compiled schema installed
//! before the app will start at all. An INI file costs no dependency and is
//! readable with an editor.
//!
//! A missing or unparseable file is a first run, not an error: every value falls
//! back to its default.

use vstd::prelude::*;

use crate::text::same_str;

verus! {

/// Below a second the poll would cost more than it measures; above thirty the
/// live numbers stop feeling live.
pub const MIN_POLL_SECS: u32 = 1;

pub const MAX_POLL_SECS: u32 = 30;

pub const DEFAULT_POLL_SECS: u32 = 2;

/// The default poll interval sits inside its own bounds.
pub proof fn law_the_default_poll_is_within_bounds()
    ensures
        MIN_POLL_SECS <= DEFAULT_POLL_SECS <= MAX_POLL_SECS,
{
}

#[derive(Debug, Clone, Copy, PartialEq, Eq, Structural)]
pub enum Theme {
    System,
    Light,
    Dark,
}

impl Default for Theme {
    fn default() -> (r: Self)
        ensures
            r == Theme::System,
    {
        Theme::System
    }
}

impl Theme {
    pub open spec fn key_text(self) -> Seq<char> {
        match self {
            Theme::System => "system"@,
            Theme::Light => "light"@,
            Theme::Dark => "dark"@,
        }
    }

    pub fn as_key(self) -> (r: &'static str)
        ensures
            r@ == self.key_text(),
    {
        match self {
            Theme::System => "system",
            Theme::Light => "light",
            Theme::Dark => "dark",
        }
    }

    /// The theme of a key; anything unknown is the system's.
    pub open spec fn keyed(key: Seq<char>) -> Self {
        if key == "light"@ {
            Theme::Light
        } else if key == "dark"@ {
            Theme::Dark
        } else {
            Theme::System
        }
    }

    pub fn from_key(key: &str) -> (r: Self)
        ensures
            r == Theme::keyed(key@),
    {
        if same_str(key, "light") {
            Theme::Light
        } else if same_str(key, "dark") {
            Theme::Dark
        } else {
            Theme::System
        }
    }

    /// Position in the Appearance combo row.
    pub open spec fn position(self) -> u32 {
        match self {
            Theme::System => 0,
            Theme::Light => 1,
            Theme::Dark => 2,
        }
    }

    /// Position in the Appearance combo row, and back.
    pub fn index(self) -> (r: u32)
        ensures
            r == self.position(),
    {
        match self {
            Theme::System => 0,
            Theme::Light => 1,
            Theme::Dark => 2,
        }
    }

    pub open spec fn at_position(index: u32) -> Self {
        if index == 1 {
            Theme::Light
        } else if index == 2 {
            Theme::Dark
        } else {
            Theme::System
        }
    }

    pub fn from_index(index: u32) -> (r: Self)
        ensures
            r == Theme::at_position(index),
    {
        match index {
            1 => Theme::Light,
            2 => Theme::Dark,
            _ => Theme::System,
        }
    }
}

/// A theme survives being written as its key, and being shown in the combo row.
pub proof fn law_theme_keys_round_trip(theme: Theme)
    ensures
        Theme::keyed(theme.key_text()) == theme,
        Theme::at_position(theme.position()) == theme,
{
    reveal_strlit("system");
    reveal_strlit("light");
    reveal_strlit("dark");
    assert("system"@.len() == 6 && "light"@.len() == 5 && "dark"@.len() == 4);
}

/// How a time of day is shown: when a listed run started.
#[derive(Debug, Clone, Copy, PartialEq, Eq, Structural)]
pub enum Clock {
    /// Whatever GNOME itself is set to.
    System,
    TwentyFour,
    Twelve,
}

impl Default for Clock {
    fn default() -> (r: Self)
        ensures
            r == Clock::System,
    {
        Clock::System
    }
}

impl Clock {
    pub open spec fn key_text(self) -> Seq<char> {
        match self {
            Clock::System => "system"@,
            Clock::TwentyFour => "24h"@,
            Clock::Twelve => "12h"@,
        }
    }

    pub fn as_key(self) -> (r: &'static str)
        ensures
            r@ == self.key_text(),
    {
        match self {
            Clock::System => "system",
            Clock::TwentyFour => "24h",
            Clock::Twelve => "12h",
        }
    }

    /// The clock of a key; anything unknown is the system's.
    pub open spec fn keyed(key: Seq<char>) -> Self {
        if key == "24h"@ {
            Clock::TwentyFour
        } else if key == "12h"@ {
            Clock::Twelve
        } else {
            Clock::System
        }
    }

    pub fn from_key(key: &str) -> (r: Self)
        ensures
            r == Clock::keyed(key@),
    {
        if same_str(key, "24h") {
            Clock::TwentyFour
        } else if same_str(key, "12h") {
            Clock::Twelve
        } else {
            Clock::System
        }
    }

    pub open spec fn position(self) -> u32 {
        match self {
            Clock::System => 0,
            Clock::TwentyFour => 1,
            Clock::Twelve => 2,
        }
    }

    pub fn index(self) -> (r: u32)
        ensures
            r == self.position(),
    {
        match self {
            Clock::System => 0,
            Clock::TwentyFour => 1,
            Clock::Twelve => 2,
        }
    }

    pub open spec fn at_position(index: u32) -> Self {
        if index == 1 {
            Clock::TwentyFour
        } else if index == 2 {
            Clock::Twelve
        } else {
            Clock::System
        }
    }

    pub fn from_index(index: u32) -> (r: Self)
        ensures
            r == Clock::at_position(index),
    {
        match index {
            1 => Clock::TwentyFour,
            2 => Clock::Twelve,
            _ => Clock::System,
        }
    }

    /// Whether the hours are counted to twelve, where the desktop says this of its
    /// own clock.
    pub open spec fn counts_twelve(self, clock_format: Option<Seq<char>>) -> bool {
        match self {
            Clock::TwentyFour => false,
            Clock::Twelve => true,
            Clock::System => clock_format == Some("12h"@),
        }
    }

    /// Resolved against the desktop's own `clock-format` when set to `System`;
    /// `None` is a desktop that has no such setting.
    pub fn twelve_hour(self, clock_format: Option<&str>) -> (r: bool)
        ensures
            clock_format is None ==> r == self.counts_twelve(None),
            clock_format matches Some(format) ==> r == self.counts_twelve(Some(format@)),
    {
        match self {
            Clock::TwentyFour => false,
            Clock::Twelve => true,
            Clock::System => system_twelve_hour(clock_format),
        }
    }
}

/// What was chosen holds whatever the desktop says; only where nothing was chosen
/// the desktop is followed, and one that says nothing counts to twenty-four.
pub proof fn law_a_chosen_clock_holds(format: Option<Seq<char>>)
    ensures
        Clock::Twelve.counts_twelve(format),
        !Clock::TwentyFour.counts_twelve(format),
        !Clock::System.counts_twelve(None),
        format matches Some(f) ==> (Clock::System.counts_twelve(format) <==> f == "12h"@),
{
}

/// A clock survives being written as its key, and being shown in the combo row.
pub proof fn law_clock_keys_round_trip(clock: Clock)
    ensures
        Clock::keyed(clock.key_text()) == clock,
        Clock::at_position(clock.position()) == clock,
{
    reveal_strlit("system");
    reveal_strlit("24h");
    reveal_strlit("12h");
    assert("system"@.len() == 6 && "24h"@[0] == '2' && "12h"@[0] == '1');
}

/// GNOME's own `clock-format`, or 24-hour if it cannot be read. A non-GNOME
/// desktop must not take the app down over a time format.
fn system_twelve_hour(clock_format: Option<&str>) -> (r: bool)
    ensures
        r == (clock_format matches Some(format) && format@ == "12h"@),
{
    match clock_format {
        Some(format) => same_str(format, "12h"),
        None => false,
    }
}

#[derive(Debug, Clone, Copy, PartialEq, Eq, Structural)]
pub struct Settings {
    pub poll_secs: u32,
    pub theme: Theme,
    pub alerts: bool,
    pub clock: Clock,
    pub background: bool,
}

/// What a settings file holds: each value as the file has it, `None` where the
/// file does not have it or not as a value of its type.
#[derive(Debug, Clone)]
pub struct Stored {
    pub poll_secs: Option<i32>,
    pub theme: Option<String>,
    pub alerts: Option<bool>,
    pub clock: Option<String>,
    pub background: Option<bool>,
}

/// A poll interval held to its bounds.
pub open spec fn bounded(secs: int) -> int {
    if secs < MIN_POLL_SECS {
        MIN_POLL_SECS as int
    } else if secs > MAX_POLL_SECS {
        MAX_POLL_SECS as int
    } else {
        secs
    }
}

/// A poll interval held to its bounds.
pub fn bound_poll(secs: u32) -> (r: u32)
    ensures
        r == bounded(secs as int),
{
    if secs < MIN_POLL_SECS {
        MIN_POLL_SECS
    } else if secs > MAX_POLL_SECS {
        MAX_POLL_SECS
    } else {
        secs
    }
}

impl Default for Settings {
    fn default() -> (r: Self)
        ensures
            r == Settings::preset(),
    {
        Settings {
            poll_secs: DEFAULT_POLL_SECS,
            theme: Theme::default(),
            // Off by default: GNOME already warns about low battery, and a
            // second banner saying the same thing is noise, not a feature.
            alerts: false,
            clock: Clock::default(),
            // Off by default: closing a window should close the app unless the
            // user has decided otherwise.
            background: false,
        }
    }
}

impl Settings {
    /// What holds where nothing was stored.
    pub open spec fn preset() -> Self {
        Settings {
            poll_secs: DEFAULT_POLL_SECS,
            theme: Theme::System,
            alerts: false,
            clock: Clock::System,
            background: false,
        }
    }

    /// The poll interval is within its bounds.
    pub open spec fn wf(self) -> bool {
        MIN_POLL_SECS <= self.poll_secs <= MAX_POLL_SECS
    }

    /// What a settings file says: a value that is not there is the preset one, a
    /// poll interval is held to its bounds, and a negative one is not one.
    pub open spec fn told_by(stored: Stored) -> Self {
        Settings {
            poll_secs: match stored.poll_secs {
                Some(secs) => if secs >= 0 {
                    bounded(secs as int) as u32
                } else {
                    DEFAULT_POLL_SECS
                },
                None => DEFAULT_POLL_SECS,
            },
            theme: match stored.theme {
                Some(key) => Theme::keyed(key@),
                None => Theme::System,
            },
            alerts: stored.alerts matches Some(alerts) && alerts,
            clock: match stored.clock {
                Some(key) => Clock::keyed(key@),
                None => Clock::System,
            },
            background: stored.background matches Some(background) && background,
        }
    }

    /// The settings of a file; `None` is a file that is not there or is not one.
    pub fn load(stored: Option<&Stored>) -> (r: Self)
        ensures
            r.wf(),
            r == match stored {
                Some(stored) => Settings::told_by(*stored),
                None => Settings::preset(),
            },
    {
        let stored = match stored {
            Some(stored) => stored,
            None => {
                return Settings::default();
            },
        };
        Settings {
            poll_secs: match stored.poll_secs {
                Some(secs) => if secs >= 0 {
                    bound_poll(secs as u32)
                } else {
                    DEFAULT_POLL_SECS
                },
                None => DEFAULT_POLL_SECS,
            },
            theme: match &stored.theme {
                Some(key) => Theme::from_key(key.as_str()),
                None => Theme::default(),
            },
            alerts: match stored.alerts {
                Some(alerts) => alerts,
                None => false,
            },
            clock: match &stored.clock {
                Some(key) => Clock::from_key(key.as_str()),
                None => Clock::default(),
            },
            background: match stored.background {
                Some(background) => background,
                None => false,
            },
        }
    }

    /// What to write for these settings is `stored`.
    pub open spec fn is_stored_as(self, stored: Stored) -> bool {
        &&& stored.poll_secs == Some(self.poll_secs as i32)
        &&& stored.theme is Some && stored.theme->0@ == self.theme.key_text()
        &&& stored.alerts == Some(self.alerts)
        &&& stored.clock is Some && stored.clock->0@ == self.clock.key_text()
        &&& stored.background == Some(self.background)
    }

    /// What to write to the file. An interval that the file cannot hold is an
    /// error.
    pub fn save(&self) -> (r: Result<Stored, String>)
        ensures
            match r {
                Ok(stored) => self.poll_secs <= i32::MAX && self.is_stored_as(stored),
                Err(error) => self.poll_secs > i32::MAX && error@ == "poll interval out of range"@,
            },
    {
        if self.poll_secs > 0x7FFF_FFFF {
            return Err("poll interval out of range".to_owned());
        }
        Ok(
            Stored {
                poll_secs: Some(self.poll_secs as i32),
                theme: Some(self.theme.as_key().to_owned()),
                alerts: Some(self.alerts),
                clock: Some(self.clock.as_key().to_owned()),
                background: Some(self.background),
            },
        )
    }
}

/// Settings survive a round trip through the file.
pub proof fn law_settings_round_trip(settings: Settings, stored: Stored)
    requires
        settings.wf(),
        settings.is_stored_as(stored),
    ensures
        Settings::told_by(stored) == settings,
{
    law_theme_keys_round_trip(settings.theme);
    law_clock_keys_round_trip(settings.clock);
}

/// Each value of the file says its own, and one that is not there, or says nothing
/// that is known, is as on a first run: every two seconds, the system's theme and
/// clock, no alerts, nothing in the background. An interval is held between one
/// second and thirty.
pub proof fn law_each_value_says_its_own(stored: Stored)
    ensures
        ({
            let r = Settings::told_by(stored);
            &&& stored.poll_secs is None ==> r.poll_secs == 2
            &&& stored.poll_secs matches Some(secs) ==> {
                &&& secs < 0 ==> r.poll_secs == 2
                &&& secs == 0 ==> r.poll_secs == 1
                &&& 1 <= secs <= 30 ==> r.poll_secs == secs
                &&& secs > 30 ==> r.poll_secs == 30
            }
            &&& r.theme == Theme::Light <==> stored.theme is Some && stored.theme->0@ == "light"@
            &&& r.theme == Theme::Dark <==> stored.theme is Some && stored.theme->0@ == "dark"@
            &&& r.clock == Clock::TwentyFour <==> stored.clock is Some && stored.clock->0@
                == "24h"@
            &&& r.clock == Clock::Twelve <==> stored.clock is Some && stored.clock->0@ == "12h"@
            &&& r.alerts <==> stored.alerts == Some(true)
            &&& r.background <==> stored.background == Some(true)
        }),
        Settings::preset() == (Settings {
            poll_secs: 2,
            theme: Theme::System,
            alerts: false,
            clock: Clock::System,
            background: false,
        }),
{
    reveal_strlit("light");
    reveal_strlit("dark");
    reveal_strlit("24h");
    reveal_strlit("12h");
    assert("light"@.len() == 5 && "dark"@.len() == 4 && "24h"@[0] == '2' && "12h"@[0] == '1');
}

/// Positions in a combo row are those of the choices, from the top.
pub proof fn law_choices_stand_in_their_rows(index: u32)
    ensures
        Theme::at_position(index) == Theme::Light <==> index == 1,
        Theme::at_position(index) == Theme::Dark <==> index == 2,
        Clock::at_position(index) == Clock::TwentyFour <==> index == 1,
        Clock::at_position(index) == Clock::Twelve <==> index == 2,
{
}

} // verus!
