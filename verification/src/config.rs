//! Viewer settings, as read from the parsed command line.

use vstd::prelude::*;
use crate::ascii::Algorithm;
use crate::text::str_equals;

verus! {

/// How images are shown.
#[derive(Clone, Copy, Debug, PartialEq, Eq, Structural)]
pub enum ViewMode {
    /// Coloured ASCII art.
    Ascii,
    /// The image itself, through a terminal graphics protocol when there is one.
    Image,
    /// Half-block characters.
    HalfBlock,
}

/// The values of the global command-line options.
pub struct CliArgs {
    pub width: u32,
    pub height: u32,
    pub recursive: bool,
    pub monochrome: bool,
    pub info: bool,
    pub once: bool,
}

/// The values of the `ascii` subcommand's options, where given.
pub struct AsciiArgs {
    pub charset: Option<String>,
    pub algorithm: Option<String>,
}

/// Everything the viewer needs to know about how to show images.
pub struct Config {
    pub mode: ViewMode,
    pub algorithm: Algorithm,
    pub width: u32,
    pub height: u32,
    pub monochrome: bool,
    pub charset: String,
    pub info: bool,
    pub recursive: bool,
    pub gif_once: bool,
}

/// The algorithm an `--algorithm` value names: `lum-clahe` and `sobel`, anything
/// else luminance.
pub open spec fn algorithm_named(name: Seq<char>) -> Algorithm {
    if name == "lum-clahe"@ {
        Algorithm::LuminanceClahe
    } else if name == "sobel"@ {
        Algorithm::Sobel
    } else {
        Algorithm::Luminance
    }
}

/// The algorithm an `--algorithm` value names.
pub fn parse_algorithm(name: &str) -> (algo: Algorithm)
    ensures
        algo == algorithm_named(name@),
{
    if str_equals(name, "lum-clahe") {
        Algorithm::LuminanceClahe
    } else if str_equals(name, "sobel") {
        Algorithm::Sobel
    } else {
        Algorithm::Luminance
    }
}

/// The configured charset: the `ascii` subcommand's value, else none.
pub open spec fn charset_chosen(ascii: Option<&AsciiArgs>) -> Seq<char> {
    match ascii {
        Some(a) => match a.charset {
            Some(s) => s@,
            None => Seq::empty(),
        },
        None => Seq::empty(),
    }
}

/// The configured algorithm: named by the `ascii` subcommand (`lum` when it names
/// none), else luminance.
pub open spec fn algorithm_chosen(ascii: Option<&AsciiArgs>) -> Algorithm {
    match ascii {
        Some(a) => match a.algorithm {
            Some(s) => algorithm_named(s@),
            None => algorithm_named("lum"@),
        },
        None => Algorithm::Luminance,
    }
}

impl Config {
    /// The settings for `mode` from the global options and, in ASCII mode, the
    /// subcommand's options.
    pub fn new(matches: &CliArgs, mode: ViewMode, ascii_matches: Option<&AsciiArgs>) -> (conf: Config)
        ensures
            conf.mode == mode,
            conf.width == matches.width,
            conf.height == matches.height,
            conf.recursive == matches.recursive,
            conf.monochrome == matches.monochrome,
            conf.info == matches.info,
            conf.gif_once == matches.once,
            conf.charset@ == charset_chosen(ascii_matches),
            conf.algorithm == algorithm_chosen(ascii_matches),
    {
        let (charset, algorithm) = match ascii_matches {
            Some(am) => {
                let cs = match &am.charset {
                    Some(s) => s.clone(),
                    None => String::new(),
                };
                let algo = match &am.algorithm {
                    Some(s) => parse_algorithm(s.as_str()),
                    None => parse_algorithm("lum"),
                };
                (cs, algo)
            },
            None => (String::new(), Algorithm::Luminance),
        };
        Config {
            mode,
            algorithm,
            width: matches.width,
            height: matches.height,
            monochrome: matches.monochrome,
            charset,
            info: matches.info,
            recursive: matches.recursive,
            gif_once: matches.once,
        }
    }
}

} // verus!
