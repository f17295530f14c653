//! Frames of automatic gain, and the switch that turns the gain off.

use vstd::prelude::*;

use crate::board::str_view;
use crate::text;

verus! {

/// 20 ms at 16 kHz mono: short enough to react within a syllable, long enough
/// that its loudness means something.
pub const FRAME_SAMPLES: usize = 320;

pub const FRAME_BYTES: usize = 640;

/// The words that turn the gain off.
pub open spec fn turned_off(setting: Seq<char>) -> bool {
    let word = text::folded(text::trimmed(setting));
    word == "off"@ || word == "0"@ || word == "false"@ || word == "no"@
}

/// Whether a recording is made with gain: unless the setting says otherwise.
pub fn enabled(setting: Option<&str>) -> (r: bool)
    ensures
        r == !(str_view(setting) is Some && turned_off(str_view(setting)->0)),
{
    match setting {
        Some(s) => {
            let word = text::fold(text::trim(s).as_str());
            let w = word.as_str();
            !(text::same(w, "off") || text::same(w, "0") || text::same(w, "false") || text::same(
                w,
                "no",
            ))
        },
        None => true,
    }
}

} // verus!
