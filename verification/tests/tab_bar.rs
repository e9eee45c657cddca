use wezterm_core::tab_bar::{TabBarPosition, TabBarSettings, TermWindow};

fn settings(pos: TabBarPosition, at_bottom: bool, fancy: bool) -> TabBarSettings {
    TabBarSettings {
        tab_bar_position: pos,
        tab_bar_at_bottom: at_bottom,
        use_fancy_tab_bar: fancy,
    }
}

#[test]
fn legacy_bottom_switch_moves_only_the_default_top() {
    let cases = [
        (TabBarPosition::Top, false, TabBarPosition::Top),
        (TabBarPosition::Top, true, TabBarPosition::Bottom),
        (TabBarPosition::Bottom, false, TabBarPosition::Bottom),
        (TabBarPosition::Bottom, true, TabBarPosition::Bottom),
        (TabBarPosition::Left, true, TabBarPosition::Left),
    ];
    for (pos, at_bottom, expect) in cases {
        let config = settings(pos, at_bottom, true);
        assert_eq!(TermWindow::effective_tab_bar_position_impl(&config), expect);
        let window = TermWindow { config };
        assert_eq!(window.effective_tab_bar_position(), expect);
    }
}

#[test]
fn plain_bar_cannot_go_left() {
    assert_eq!(
        TermWindow::tab_bar_inset_side(&settings(TabBarPosition::Left, false, false)),
        TabBarPosition::Top
    );
    assert_eq!(
        TermWindow::tab_bar_inset_side(&settings(TabBarPosition::Left, false, true)),
        TabBarPosition::Left
    );
    assert_eq!(
        TermWindow::tab_bar_inset_side(&settings(TabBarPosition::Top, true, false)),
        TabBarPosition::Bottom
    );
}
