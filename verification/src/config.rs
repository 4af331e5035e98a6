//! The parts of the cship configuration that layout reads.
use vstd::prelude::*;

verus! {

/// `[cship.fill]`: how a `$fill` token is drawn.
#[derive(Debug)]
pub struct FillConfig {
    /// Character(s) repeated to fill the gap (default `"."`).
    pub symbol: Option<String>,
    /// Style of the fill (default `"bold black"`).
    pub style: Option<String>,
    /// A disabled fill collapses to nothing.
    pub disabled: Option<bool>,
}

/// The configuration that rendering consults.
#[derive(Debug)]
pub struct CshipConfig {
    /// A single format string; `$line_break` separates its rows. Takes
    /// priority over `lines`.
    pub format: Option<String>,
    /// One format string per row.
    pub lines: Option<Vec<String>>,
    /// `[cship.fill]`.
    pub fill: Option<FillConfig>,
    /// `[cship] width`: terminal width to assume when none is detected.
    pub width: Option<u16>,
    /// `[cship] width_offset`: columns reserved around the statusline.
    pub width_offset: Option<u16>,
}

impl Default for FillConfig {
    fn default() -> (c: FillConfig)
        ensures
            c.symbol is None,
            c.style is None,
            c.disabled is None,
    {
        FillConfig { symbol: None, style: None, disabled: None }
    }
}

impl Default for CshipConfig {
    fn default() -> (c: CshipConfig)
        ensures
            c.format is None,
            c.lines is None,
            c.fill is None,
            c.width is None,
            c.width_offset is None,
    {
        CshipConfig { format: None, lines: None, fill: None, width: None, width_offset: None }
    }
}

} // verus!
