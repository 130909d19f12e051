//! Text renderers for ASCII art.

pub mod ansi;
pub mod html;

use vstd::prelude::*;
use crate::ascii::AsciiArt;
use ansi::{art_text, codes_fit};

verus! {

/// Something that turns `T` into text.
pub trait Renderer<T> {
    /// The text for `data`.
    fn render(&self, data: &T) -> String;
}

/// ANSI terminal rendering, in colour unless turned off.
pub struct Ansi {
    pub color: bool,
    pub monochrome: bool,
}

impl Renderer<AsciiArt> for Ansi {
    /// The terminal text of `art`, as `ansi::render` with this renderer's settings.
    fn render(&self, art: &AsciiArt) -> (out: String)
        ensures
            exists|codes: Seq<Seq<Seq<char>>>|
                #[trigger] codes_fit(art.cells(), codes) && out@ == art_text(
                    art.cells(),
                    self.color && !self.monochrome,
                    codes,
                ),
    {
        ansi::render(art, self.color, self.monochrome)
    }
}

} // verus!
