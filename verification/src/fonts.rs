//! The font for characters that the built-in ones lack.

use vstd::prelude::*;

verus! {

/// The name under which the fallback font is entered.
pub fn fallback_name() -> (r: &'static str)
    ensures
        r@ == "cjk"@,
{
    "cjk"
}

/// The built-in families of fonts.
#[derive(Clone, Copy, Debug, PartialEq, Eq, Structural)]
pub enum Family {
    Proportional,
    Monospace,
}

/// The families that get the fallback font.
pub fn fallback_families() -> (r: Vec<Family>)
    ensures
        r@ == seq![Family::Proportional, Family::Monospace],
{
    let mut r: Vec<Family> = Vec::new();
    r.push(Family::Proportional);
    r.push(Family::Monospace);
    r
}

/// The names of a family's fonts.
pub open spec fn names_of(fonts: Seq<String>) -> Seq<Seq<char>> {
    fonts.map_values(|f: String| f@)
}

/// A family's fonts with the fallback behind them: it is asked only for the characters
/// that the others lack.
pub fn with_fallback(fonts: Vec<String>) -> (r: Vec<String>)
    ensures
        names_of(r@) == names_of(fonts@).push("cjk"@),
{
    let ghost before = fonts@;
    let mut r = fonts;
    r.push(fallback_name().to_owned());
    assert(names_of(r@) == names_of(before).push("cjk"@));
    r
}

/// The files that may hold a fallback font, the most wanted first.
pub open spec fn font_files() -> Seq<Seq<char>> {
    seq![
        "C:/Windows/Fonts/msyh.ttc"@,
        "C:/Windows/Fonts/Deng.ttf"@,
        "C:/Windows/Fonts/simhei.ttf"@,
        "C:/Windows/Fonts/simsun.ttc"@,
    ]
}

/// The next file to try, after `failed` ones that could not be read; none when all have
/// been tried.
pub fn set_fonts(failed: usize) -> (r: Option<&'static str>)
    ensures
        match r {
            Some(path) => failed < font_files().len() && path@ == font_files()[failed as int],
            None => failed >= font_files().len(),
        },
{
    if failed == 0 {
        Some("C:/Windows/Fonts/msyh.ttc")
    } else if failed == 1 {
        Some("C:/Windows/Fonts/Deng.ttf")
    } else if failed == 2 {
        Some("C:/Windows/Fonts/simhei.ttf")
    } else if failed == 3 {
        Some("C:/Windows/Fonts/simsun.ttc")
    } else {
        None
    }
}

} // verus!
