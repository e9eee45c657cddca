//! Where the tab bar goes: the configured position, the legacy
//! `tab_bar_at_bottom` switch, and the fallback of the plain bar.
use vstd::prelude::*;

verus! {

/// Where the tab bar is drawn.
#[derive(Debug, Clone, Copy, PartialEq, Eq, Structural)]
pub enum TabBarPosition {
    Top,
    Bottom,
    Left,
}

/// The configuration settings that place the tab bar.
#[derive(Debug, Clone, Copy)]
pub struct TabBarSettings {
    /// The `tab_bar_position` setting (`Top` by default).
    pub tab_bar_position: TabBarPosition,
    /// The legacy `tab_bar_at_bottom` setting.
    pub tab_bar_at_bottom: bool,
    /// The `use_fancy_tab_bar` setting.
    pub use_fancy_tab_bar: bool,
}

/// The effective position: `tab_bar_position` wins when it is not the
/// default `Top`; at `Top`, the legacy `tab_bar_at_bottom` moves the bar
/// to the bottom.
pub open spec fn effective_position(s: TabBarSettings) -> TabBarPosition {
    if s.tab_bar_position == TabBarPosition::Top && s.tab_bar_at_bottom {
        TabBarPosition::Bottom
    } else {
        s.tab_bar_position
    }
}

/// What the placement of a window's tab bar reads of the window: its
/// configuration.
#[derive(Debug, Clone, Copy)]
pub struct TermWindow {
    pub config: TabBarSettings,
}

impl TermWindow {
    /// The effective tab-bar position of this window.
    pub fn effective_tab_bar_position(&self) -> (r: TabBarPosition)
        ensures
            r == effective_position(self.config),
    {
        Self::effective_tab_bar_position_impl(&self.config)
    }

    /// Resolve the effective tab-bar position from the two settings.
    pub fn effective_tab_bar_position_impl(config: &TabBarSettings) -> (r: TabBarPosition)
        ensures
            r == effective_position(*config),
    {
        match config.tab_bar_position {
            TabBarPosition::Top if config.tab_bar_at_bottom => TabBarPosition::Bottom,
            other => other,
        }
    }

    /// The side whose inset the tab bar takes.
    pub fn tab_bar_inset_side(config: &TabBarSettings) -> (r: TabBarPosition)
        ensures
            r == inset_side(*config),
    {
        let pos = Self::effective_tab_bar_position_impl(config);
        if pos == TabBarPosition::Left && !config.use_fancy_tab_bar {
            TabBarPosition::Top
        } else {
            pos
        }
    }
}

/// The side whose inset the tab bar takes: the effective position, except
/// that the plain (non-fancy) bar cannot be drawn vertically and falls
/// back to the top.
pub open spec fn inset_side(s: TabBarSettings) -> TabBarPosition {
    if effective_position(s) == TabBarPosition::Left && !s.use_fancy_tab_bar {
        TabBarPosition::Top
    } else {
        effective_position(s)
    }
}

} // verus!
