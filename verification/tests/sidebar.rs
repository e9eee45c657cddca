use wezterm_core::sidebar::{sidebar_rows, SidebarRenameTarget, SidebarRow, SidebarTab, SidebarWorkspace};

fn tab(window_id: u64, tab_id: u64, title: &str, pane: Option<&str>, active: Option<u64>) -> SidebarTab {
    SidebarTab {
        window_id,
        tab_id,
        title: title.to_string(),
        pane_title: pane.map(|s| s.to_string()),
        window_active_tab: active,
    }
}

fn workspaces() -> Vec<SidebarWorkspace> {
    vec![
        SidebarWorkspace {
            name: "default".to_string(),
            tabs: vec![tab(1, 10, "vim", None, Some(10)), tab(1, 11, "", Some("bash"), Some(10))],
        },
        SidebarWorkspace { name: "work".to_string(), tabs: vec![tab(2, 20, "", None, Some(20))] },
    ]
}

fn label(row: &SidebarRow) -> String {
    match row {
        SidebarRow::Header => "WORKSPACES".to_string(),
        SidebarRow::Workspace { label, .. } => label.clone(),
        SidebarRow::Tab { label, .. } => label.clone(),
    }
}

#[test]
fn rows_follow_workspaces_and_their_tabs() {
    let rows = sidebar_rows(&workspaces(), "default", &vec![], &None, "");
    let labels: Vec<String> = rows.iter().map(label).collect();
    assert_eq!(labels, vec!["WORKSPACES", "default", "\u{25CF} vim", "  bash", "work", "  (no pane)"]);
    match &rows[1] {
        SidebarRow::Workspace { active, expanded, disclosure, .. } => {
            assert!(*active);
            assert!(*expanded);
            assert_eq!(*disclosure, '\u{25BC}');
        }
        _ => panic!("workspace row expected"),
    }
}

#[test]
fn collapsed_workspace_hides_its_tabs() {
    let rows = sidebar_rows(&workspaces(), "work", &vec!["default".to_string()], &None, "");
    let labels: Vec<String> = rows.iter().map(label).collect();
    assert_eq!(labels, vec!["WORKSPACES", "default", "work", "\u{25CF} (no pane)"]);
    match &rows[1] {
        SidebarRow::Workspace { expanded, disclosure, active, .. } => {
            assert!(!*expanded);
            assert!(!*active);
            assert_eq!(*disclosure, '\u{25B6}');
        }
        _ => panic!("workspace row expected"),
    }
}

#[test]
fn renaming_shows_the_field() {
    let rename = Some(SidebarRenameTarget::Workspace("work".to_string()));
    let rows = sidebar_rows(&workspaces(), "default", &vec![], &rename, "pla");
    assert_eq!(label(&rows[4]), "pla|");
    let rename = Some(SidebarRenameTarget::Tab(11));
    let rows = sidebar_rows(&workspaces(), "default", &vec![], &rename, "x");
    assert_eq!(label(&rows[3]), "x|");
    match &rows[3] {
        SidebarRow::Tab { renaming, tab_id, window_id, workspace, .. } => {
            assert!(*renaming);
            assert_eq!((*tab_id, *window_id), (11, 1));
            assert_eq!(workspace, "default");
        }
        _ => panic!("tab row expected"),
    }
}
