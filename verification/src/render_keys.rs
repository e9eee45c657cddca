//! The plain values the renderers key their caches by and report back.
use vstd::prelude::*;

verus! {

/// Cache key for a live command: its command line plus the terminal grid
/// size (in cells) it was spawned at, and the font scale's bits.
#[derive(Debug, Clone, PartialEq, Eq, Hash)]
pub struct LiveCommandKey {
    pub argv: Vec<String>,
    pub cwd: Option<String>,
    pub width: usize,
    pub height: usize,
    /// The bits of the configured font scale, compared bit for bit.
    pub font_scale_bits: u32,
}

/// Cache key for the shaping of a line: the hash of what is shaped, the
/// text being composed at a column (if any), and the shaping generation.
#[derive(Debug, Hash, PartialEq, Eq, Clone)]
pub struct LineToEleShapeCacheKey {
    pub shape_hash: [u8; 16],
    pub composing: Option<(usize, String)>,
    pub shape_generation: usize,
}

/// What rendering a screen line reports back.
#[derive(Debug, Clone, Copy, PartialEq, Eq, Structural)]
pub struct RenderScreenLineResult {
    /// The line must be rendered again when the hovered hyperlink changes.
    pub invalidate_on_hover_change: bool,
}

} // verus!
