//! How each image is shown: ASCII art on the terminal, or a still image or an
//! animation handed to the terminal graphics printer.

use vstd::prelude::*;
use crate::ascii::raster::{grayscale, grey_samples, RgbaRaster};
use crate::ascii::{self, conversion_fits, usable_charset, Algorithm, AsciiPixel};
use crate::config::{Config, ViewMode};
use crate::layout::Dimensions;
use crate::render::ansi::{art_text, codes_fit};
use crate::render::{Ansi, Renderer};
use crate::text::str_equals;

verus! {

/// Where and how the graphics printer draws an image.
#[derive(Clone, Copy, Debug, PartialEq, Eq, Structural)]
pub struct Placement {
    /// Columns.
    pub width: u32,
    /// Rows, when the height was configured; else the printer keeps the aspect ratio.
    pub height: Option<u32>,
    /// Whether terminal image protocols (Kitty, iTerm2) may be used; half blocks
    /// otherwise.
    pub protocols: bool,
}

/// What to do with one image.
#[derive(Clone, Copy, Debug, PartialEq, Eq, Structural)]
pub enum Output {
    /// Convert it to ASCII art and print that.
    Ascii,
    /// Play it as an animation.
    Animation(Placement),
    /// Print it as a still image.
    Still(Placement),
}

/// The output for an image in `mode` whose format (its upper-cased file extension)
/// is `format`, at the resolved size: ASCII mode converts; the other modes play GIF
/// files as animations and print anything else, with image protocols only in image
/// mode, and pass the height on only when one was configured.
pub open spec fn output_for(mode: ViewMode, format: Seq<char>, size: Dimensions, conf_height: u32) -> Output {
    let placement = Placement {
        width: size.width,
        height: if conf_height > 0 { Some(size.height) } else { None },
        protocols: mode == ViewMode::Image,
    };
    if mode == ViewMode::Ascii {
        Output::Ascii
    } else if format == "GIF"@ {
        Output::Animation(placement)
    } else {
        Output::Still(placement)
    }
}

/// Where the graphics printer draws, for outputs that use it.
pub open spec fn placement_of(out: Output) -> Option<Placement> {
    match out {
        Output::Ascii => None,
        Output::Animation(p) => Some(p),
        Output::Still(p) => Some(p),
    }
}

/// Outside ASCII mode the placement does not depend on the format: every image,
/// still or animated, is drawn at the resolved width, gets the resolved height
/// exactly when a height was configured, and may use image protocols exactly in
/// image mode. ASCII mode uses no placement.
pub proof fn lemma_placement_ignores_format(mode: ViewMode, format: Seq<char>, size: Dimensions, conf_height: u32)
    ensures
        mode == ViewMode::Ascii ==> placement_of(output_for(mode, format, size, conf_height)) is None,
        mode != ViewMode::Ascii ==> placement_of(output_for(mode, format, size, conf_height)) == Some(
            Placement {
                width: size.width,
                height: if conf_height > 0 { Some(size.height) } else { None },
                protocols: mode == ViewMode::Image,
            },
        ),
{
}

/// Decides how to show an image.
pub fn plan_output(mode: ViewMode, format: &str, size: &Dimensions, conf_height: u32) -> (out: Output)
    ensures
        out == output_for(mode, format@, *size, conf_height),
        mode != ViewMode::Ascii ==> placement_of(out) == Some(
            Placement {
                width: size.width,
                height: if conf_height > 0 { Some(size.height) } else { None },
                protocols: mode == ViewMode::Image,
            },
        ),
        (out is Animation) == (mode != ViewMode::Ascii && format@ == "GIF"@),
{
    let placement = Placement {
        width: size.width,
        height: if conf_height > 0 { Some(size.height) } else { None },
        protocols: match mode {
            ViewMode::Image => true,
            _ => false,
        },
    };
    match mode {
        ViewMode::Ascii => Output::Ascii,
        _ => if str_equals(format, "GIF") {
            Output::Animation(placement)
        } else {
            Output::Still(placement)
        },
    }
}

/// The samples that are converted: the image's, or its grey version in monochrome.
pub open spec fn shown_samples(data: Seq<u8>, monochrome: bool) -> Seq<u8> {
    if monochrome { grey_samples(data) } else { data }
}

/// The terminal text for an image in ASCII mode at `width` by `height` cells: the
/// image (grey in monochrome) converted with the configured algorithm, rendered
/// in colour unless monochrome.
pub fn ascii_view(conf: &Config, img: &RgbaRaster, width: u32, height: u32, char_set: &[char]) -> (out: String)
    requires
        img.wf(),
        usable_charset(char_set@),
        img.width * height * 4 <= usize::MAX,
        width * height * 4 <= usize::MAX,
        conf.algorithm == Algorithm::Sobel ==> img.height >= 1 && (img.width >= 1 || img.height <= 2),
    ensures
        exists|cells: Seq<Seq<AsciiPixel>>, codes: Seq<Seq<Seq<char>>>|
            #![trigger codes_fit(cells, codes)]
            conversion_fits(
                cells,
                img.width,
                img.height,
                shown_samples(img.data@, conf.monochrome),
                width,
                height,
                char_set@,
                conf.algorithm,
            ) && codes_fit(cells, codes) && out@ == art_text(cells, !conf.monochrome, codes),
{
    let art = if conf.monochrome {
        let grey = grayscale(img);
        ascii::convert(&grey, width, height, char_set, conf.algorithm)
    } else {
        ascii::convert(img, width, height, char_set, conf.algorithm)
    };
    let renderer = Ansi { color: !conf.monochrome, monochrome: conf.monochrome };
    let out = renderer.render(&art);
    proof {
        let cells = art.cells();
        assert(conversion_fits(
            cells,
            img.width,
            img.height,
            shown_samples(img.data@, conf.monochrome),
            width,
            height,
            char_set@,
            conf.algorithm,
        ));
        let codes = choose|codes: Seq<Seq<Seq<char>>>|
            #[trigger] codes_fit(cells, codes) && out@ == art_text(cells, !conf.monochrome && !conf.monochrome, codes);
        assert(codes_fit(cells, codes));
        assert(out@ == art_text(cells, !conf.monochrome, codes));
    }
    out
}

} // verus!
