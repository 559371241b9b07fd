//! The parts of the persistent settings that are more than stored values.

use vstd::prelude::*;

verus! {

/// How the background image is rendered.
#[derive(Clone, Copy, Debug, PartialEq, Eq, Structural)]
pub enum BgImageMode {
    Tiled,
    Stretched,
    /// Fit within bounds, letterboxed (keeping the aspect ratio).
    Scaled,
    /// Cover: fill completely, cropping the excess (keeping the aspect ratio).
    Zoomed,
    /// Original size, centered.
    Centered,
}

impl Default for BgImageMode {
    fn default() -> (m: BgImageMode)
        ensures
            m == BgImageMode::Zoomed,
    {
        BgImageMode::Zoomed
    }
}

/// The label under which a background mode is offered.
pub open spec fn bg_mode_label_spec(mode: BgImageMode) -> Seq<char> {
    match mode {
        BgImageMode::Zoomed => "Zoomed (cover)"@,
        BgImageMode::Scaled => "Scaled (fit)"@,
        BgImageMode::Stretched => "Stretched"@,
        BgImageMode::Centered => "Centered"@,
        BgImageMode::Tiled => "Tiled"@,
    }
}

pub fn bg_mode_label(mode: &BgImageMode) -> (r: &'static str)
    ensures
        r@ == bg_mode_label_spec(*mode),
{
    match mode {
        BgImageMode::Zoomed => "Zoomed (cover)",
        BgImageMode::Scaled => "Scaled (fit)",
        BgImageMode::Stretched => "Stretched",
        BgImageMode::Centered => "Centered",
        BgImageMode::Tiled => "Tiled",
    }
}

} // verus!
