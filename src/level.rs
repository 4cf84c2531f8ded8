//! Log levels and the set of levels a view shows.

use vstd::prelude::*;
use crate::text::same_text;

verus! {

/// The severity of a log record.
#[derive(PartialEq, Eq, Structural, Clone, Copy, Debug)]
pub enum Level {
    INFO,
    WARN,
    ERROR,
    DEBUG,
}

/// The name a level is written with, in records and on screen.
pub open spec fn level_name(l: Level) -> Seq<char> {
    match l {
        Level::INFO => "INFO"@,
        Level::WARN => "WARN"@,
        Level::ERROR => "ERROR"@,
        Level::DEBUG => "DEBUG"@,
    }
}

/// The level written as `s`, if any.
pub open spec fn level_named(s: Seq<char>) -> Result<Level, ()> {
    if s == "INFO"@ {
        Ok(Level::INFO)
    } else if s == "WARN"@ {
        Ok(Level::WARN)
    } else if s == "DEBUG"@ {
        Ok(Level::DEBUG)
    } else if s == "ERROR"@ {
        Ok(Level::ERROR)
    } else {
        Err(())
    }
}

impl Level {
    /// The level's name.
    pub fn name(&self) -> (r: &'static str)
        ensures
            r@ == level_name(*self),
    {
        match *self {
            Level::INFO => "INFO",
            Level::WARN => "WARN",
            Level::ERROR => "ERROR",
            Level::DEBUG => "DEBUG",
        }
    }

    /// Reads a level from its exact name.
    pub fn from_str(input: &str) -> (r: Result<Level, ()>)
        ensures
            r == level_named(input@),
    {
        if same_text(input, "INFO") {
            Ok(Level::INFO)
        } else if same_text(input, "WARN") {
            Ok(Level::WARN)
        } else if same_text(input, "DEBUG") {
            Ok(Level::DEBUG)
        } else if same_text(input, "ERROR") {
            Ok(Level::ERROR)
        } else {
            Err(())
        }
    }
}

/// Which levels are shown; each level can be switched on and off.
#[derive(Clone, Copy, Debug)]
pub struct LevelMask {
    pub info: bool,
    pub warn: bool,
    pub error: bool,
    pub debug: bool,
}

impl LevelMask {
    pub open spec fn shows(self, l: Level) -> bool {
        match l {
            Level::INFO => self.info,
            Level::WARN => self.warn,
            Level::ERROR => self.error,
            Level::DEBUG => self.debug,
        }
    }

    /// The mask with `l` switched over and every other level kept.
    pub open spec fn toggled(self, l: Level) -> LevelMask {
        LevelMask {
            info: if l == Level::INFO { !self.info } else { self.info },
            warn: if l == Level::WARN { !self.warn } else { self.warn },
            error: if l == Level::ERROR { !self.error } else { self.error },
            debug: if l == Level::DEBUG { !self.debug } else { self.debug },
        }
    }

    /// Every level shown.
    pub fn all() -> (r: LevelMask)
        ensures
            forall|l: Level| r.shows(l),
    {
        LevelMask { info: true, warn: true, error: true, debug: true }
    }

    /// Whether records of level `l` are shown.
    pub fn contains(&self, l: Level) -> (r: bool)
        ensures
            r == self.shows(l),
    {
        match l {
            Level::INFO => self.info,
            Level::WARN => self.warn,
            Level::ERROR => self.error,
            Level::DEBUG => self.debug,
        }
    }

    /// Switches level `l` on if it was off, off if it was on.
    pub fn toggle(&mut self, l: Level)
        ensures
            *final(self) == old(self).toggled(l),
    {
        match l {
            Level::INFO => self.info = !self.info,
            Level::WARN => self.warn = !self.warn,
            Level::ERROR => self.error = !self.error,
            Level::DEBUG => self.debug = !self.debug,
        }
    }
}

/// Switching the same level twice gives back the mask one started with.
pub proof fn lemma_toggle_twice(m: LevelMask, l: Level)
    ensures
        m.toggled(l).toggled(l) == m,
{
}

/// Switching a level changes whether that level is shown and no other.
pub proof fn lemma_toggle_flips_one(m: LevelMask, l: Level, other: Level)
    ensures
        m.toggled(l).shows(l) == !m.shows(l),
        other != l ==> m.toggled(l).shows(other) == m.shows(other),
{
}

} // verus!
