//! The start: where things are, how the window is drawn, and where the library is looked
//! for.

use vstd::prelude::*;
use super::texts::law_parts_of_texts;
use crate::graphics::{device_name, mode_of, reason_of, some_device, GlFacts, Reason};
use crate::order::starts_with;
use crate::paths::{base_of, Base, BaseFacts};

verus! {

/// Whether a value is there and reads so.
pub open spec fn reads(v: Option<String>, text: Seq<char>) -> bool {
    v is Some && (v->0)@ == text
}

/// Whether a build puts binaries where this one is.
pub open spec fn is_of_a_build(f: BaseFacts) -> bool {
    (reads(f.binary_name, "debug"@) || reads(f.binary_name, "release"@)) && reads(f.binary_parent, "target"@)
}

/// The base that is named is the base. Where none is, it is where the binary is, but
/// where a build put it the current directory; that one too where it is not known where
/// the binary is.
pub proof fn law_where_the_base_is(f: BaseFacts)
    ensures
        base_of(f) == Base::Named <==> f.named,
        base_of(f) == Base::Binary <==> !f.named && f.binary && !(is_of_a_build(f) && f.current),
        base_of(f) == Base::Current <==> !f.named && f.current && (!f.binary || is_of_a_build(f)),
        base_of(f) == Base::Here <==> !f.named && !f.binary && !f.current,
{
}

/// The window is drawn in software where the environment says so, and else, unless the
/// user forbids it, where the user asks for it, it was chosen before, or there is no
/// device. The first of these is the reason.
pub proof fn law_when_software_draws(f: GlFacts)
    ensures
        mode_of(f).software <==> f.mesa_told || (!reads(f.asked, "0"@) && (reads(f.asked, "1"@) || f.chosen_before
            || !f.device)),
        mode_of(f).restarted == f.restarted,
        reason_of(f) is None <==> f.mesa_told || reads(f.asked, "0"@) || (!reads(f.asked, "1"@) && !f.chosen_before
            && f.device),
        reason_of(f) == Some(Reason::Asked) <==> !f.mesa_told && reads(f.asked, "1"@),
        reason_of(f) == Some(Reason::ChosenBefore) <==> !f.mesa_told && !reads(f.asked, "0"@) && !reads(f.asked, "1"@)
            && f.chosen_before,
        reason_of(f) == Some(Reason::NoDevice) <==> !f.mesa_told && !reads(f.asked, "0"@) && !reads(f.asked, "1"@)
            && !f.chosen_before && !f.device,
{
    reveal_strlit("0");
    reveal_strlit("1");
    assert("0"@[0] != "1"@[0]);
}

/// A process starts itself anew only where it neither draws in software nor was started
/// anew, and the user does not forbid it.
pub proof fn law_when_a_restart_is_allowed(f: GlFacts, forbidden: bool)
    ensures
        mode_of(f).may_restart(forbidden) <==> !mode_of(f).software && !f.restarted && !forbidden,
{
}

/// A device is there where one of the names begins as those of devices do.
pub proof fn law_devices_are_known_by_name(names: Seq<String>)
    ensures
        some_device(names) <==> exists|i: int, rest: Seq<char>|
            #![trigger names[i], "card"@ + rest]
            #![trigger names[i], "renderD"@ + rest]
            0 <= i < names.len() && (names[i]@ == "card"@ + rest || names[i]@ == "renderD"@ + rest),
{
    if some_device(names) {
        let i = choose|i: int| 0 <= i < names.len() && device_name((#[trigger] names[i])@);
        law_parts_of_texts(names[i]@, "card"@);
        law_parts_of_texts(names[i]@, "renderD"@);
        if starts_with(names[i]@, "card"@) {
            let rest = choose|b: Seq<char>| names[i]@ == #[trigger] ("card"@ + b);
            assert(names[i]@ == "card"@ + rest);
        } else {
            let rest = choose|b: Seq<char>| names[i]@ == #[trigger] ("renderD"@ + b);
            assert(names[i]@ == "renderD"@ + rest);
        }
    }
    if exists|i: int, rest: Seq<char>|
        #![trigger names[i], "card"@ + rest]
        #![trigger names[i], "renderD"@ + rest]
        0 <= i < names.len() && (names[i]@ == "card"@ + rest || names[i]@ == "renderD"@ + rest) {
        let (i, rest) = choose|i: int, rest: Seq<char>|
            #![trigger names[i], "card"@ + rest]
            #![trigger names[i], "renderD"@ + rest]
            0 <= i < names.len() && (names[i]@ == "card"@ + rest || names[i]@ == "renderD"@ + rest);
        law_parts_of_texts(names[i]@, "card"@);
        law_parts_of_texts(names[i]@, "renderD"@);
        assert(device_name(names[i]@));
    }
}

} // verus!
