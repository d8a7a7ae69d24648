//! How the window is drawn: by the graphics card, or in software.
//!
//! On some machines the driver hands out a context that is there but does not
//! draw video. Mesa draws in software where it is told so before the window is
//! made; where the fault shows only in the name of the renderer, the process
//! starts itself anew.

use vstd::prelude::*;
use crate::order::{begins, contains_part, has_part, same_text, starts_with};
use crate::text::{ascii_lowered, chars_of, to_ascii_lower};

verus! {

broadcast use vstd::string::group_string_axioms;

/// How the window is drawn.
#[derive(Debug, Clone, Copy, PartialEq, Eq, Structural)]
pub struct GlMode {
    /// Whether it is drawn in software.
    pub software: bool,
    /// Whether the process was started anew once.
    pub restarted: bool,
}

impl GlMode {
    /// Whether the process may start itself anew to draw in software: not where it
    /// does so already, was started anew before, or the user forbade it.
    pub open spec fn may_restart(self, forbidden: bool) -> bool {
        !self.software && !self.restarted && !forbidden
    }

    /// Whether the process may start itself anew to draw in software: `forbidden` is
    /// the user's word against it.
    pub fn can_fall_back(&self, forbidden: bool) -> (r: bool)
        ensures
            r == self.may_restart(forbidden),
    {
        !self.software && !self.restarted && !forbidden
    }
}

/// What is known when the window is about to be made.
pub struct GlFacts {
    /// Whether the process was started anew.
    pub restarted: bool,
    /// Whether the environment tells Mesa how to draw.
    pub mesa_told: bool,
    /// What the user asked for: `1` is to draw in software, `0` not to.
    pub asked: Option<String>,
    /// Whether drawing in software was chosen before.
    pub chosen_before: bool,
    /// Whether there is a graphics device.
    pub device: bool,
}

/// Why the window is drawn in software.
#[derive(Debug, Clone, Copy, PartialEq, Eq, Structural)]
pub enum Reason {
    /// The user asked for it.
    Asked,
    /// It was chosen before.
    ChosenBefore,
    /// There is no graphics device.
    NoDevice,
}

/// Whether a value is the given text.
pub open spec fn is_value(v: Option<String>, text: Seq<char>) -> bool {
    v matches Some(s) && s@ == text
}

/// Whether the user asked for software.
pub fn requested_by_user(asked: &Option<String>) -> (r: bool)
    ensures
        r == is_value(*asked, "1"@),
{
    match asked {
        Some(s) => same_text(s.as_str(), "1"),
        None => false,
    }
}

/// Whether the user forbade software.
pub fn forbidden_by_user(asked: &Option<String>) -> (r: bool)
    ensures
        r == is_value(*asked, "0"@),
{
    match asked {
        Some(s) => same_text(s.as_str(), "0"),
        None => false,
    }
}

/// Why Mesa has to be told to draw in software, if it has to be. What the
/// environment says stands; next comes what the user asked for, what was chosen
/// before, and whether there is a device.
pub open spec fn reason_of(f: GlFacts) -> Option<Reason> {
    if f.mesa_told || is_value(f.asked, "0"@) {
        None
    } else if is_value(f.asked, "1"@) {
        Some(Reason::Asked)
    } else if f.chosen_before {
        Some(Reason::ChosenBefore)
    } else if !f.device {
        Some(Reason::NoDevice)
    } else {
        None
    }
}

/// How the window is to be drawn, and why Mesa has to be told so.
pub fn setup(facts: &GlFacts) -> (r: (GlMode, Option<Reason>))
    ensures
        r.1 == reason_of(*facts),
        r.0 == mode_of(*facts),
{
    let restarted = facts.restarted;
    if facts.mesa_told {
        return (GlMode { software: true, restarted }, None);
    }
    if forbidden_by_user(&facts.asked) {
        return (GlMode { software: false, restarted }, None);
    }
    let reason = if requested_by_user(&facts.asked) {
        Some(Reason::Asked)
    } else if facts.chosen_before {
        Some(Reason::ChosenBefore)
    } else if !facts.device {
        Some(Reason::NoDevice)
    } else {
        None
    };
    (GlMode { software: reason.is_some(), restarted }, reason)
}

/// Whether a name is that of a graphics device.
pub open spec fn device_name(name: Seq<char>) -> bool {
    starts_with(name, "renderD"@) || starts_with(name, "card"@)
}

/// Whether there is a graphics device among names.
pub open spec fn some_device(names: Seq<String>) -> bool {
    exists|i: int| 0 <= i < names.len() && device_name((#[trigger] names[i])@)
}

fn any_device(names: &Vec<String>) -> (r: bool)
    ensures
        r == some_device(names@),
{
    let mut i: usize = 0;
    while i < names.len()
        invariant
            i <= names@.len(),
            forall|k: int| 0 <= k < i ==> !device_name((#[trigger] names@[k])@),
        decreases names.len() - i,
    {
        let name = names[i].as_str();
        if begins(name, "renderD") || begins(name, "card") {
            assert(device_name(names@[i as int]@));
            return true;
        }
        i += 1;
    }
    false
}

/// Whether there is a graphics device among the names in the directory of devices;
/// `None` stands for a directory that cannot be read.
pub fn has_drm_device(names: &Option<Vec<String>>) -> (r: bool)
    ensures
        r == match names {
            Some(v) => some_device(v@),
            None => false,
        },
{
    match names {
        Some(v) => any_device(v),
        None => false,
    }
}

/// What a context says of itself.
pub struct GlInfo {
    pub vendor: String,
    pub renderer: String,
    pub version: String,
}

impl GlInfo {
    /// Whether the context looks as if video stayed black in it: it names no
    /// renderer, or the one that Mesa falls back to when it finds no driver. To draw
    /// in software is no fault.
    pub fn looks_broken(&self) -> (r: bool)
        ensures
            r == (self.renderer@.len() == 0 || has_part(ascii_lowered(self.renderer@), "zink"@)),
    {
        let lower = to_ascii_lower(self.renderer.as_str());
        chars_of(lower.as_str()).len() == 0 || contains_part(lower.as_str(), "zink")
    }
}

/// How the window is to be drawn.
pub open spec fn mode_of(f: GlFacts) -> GlMode {
    GlMode { software: f.mesa_told || reason_of(f) is Some, restarted: f.restarted }
}

/// A process that was started anew does not start itself anew: there is no endless
/// chain of starts.
pub proof fn law_no_second_restart(facts: GlFacts, forbidden: bool)
    requires
        facts.restarted,
    ensures
        !mode_of(facts).may_restart(forbidden),
{
}

/// What the environment tells Mesa is left as it is.
pub proof fn law_environment_stands(facts: GlFacts)
    requires
        facts.mesa_told,
    ensures
        reason_of(facts) is None,
        mode_of(facts).software,
{
}

} // verus!
