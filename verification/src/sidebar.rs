//! The rows of the workspace sidebar: a header, then each workspace in
//! order with a disclosure mark, and below each expanded workspace the
//! tabs of its windows. The caller gathers workspaces, windows and tabs
//! from the multiplexer and lays the rows out with its fonts and colours.
use vstd::prelude::*;
use crate::text::{append_str, chars_of, str_eq, string_of};

verus! {

/// What is being renamed in the sidebar.
#[derive(Clone, Debug)]
pub enum SidebarRenameTarget {
    Workspace(String),
    Tab(u64),
}

/// A tab of a window of a workspace.
#[derive(Clone, Debug)]
pub struct SidebarTab {
    pub window_id: u64,
    pub tab_id: u64,
    /// The tab's own title (may be empty).
    pub title: String,
    /// The title of the tab's active pane, if it has one.
    pub pane_title: Option<String>,
    /// The id of the active tab of the tab's window, if any.
    pub window_active_tab: Option<u64>,
}

/// A workspace and the tabs of its windows, window by window.
#[derive(Clone, Debug)]
pub struct SidebarWorkspace {
    pub name: String,
    pub tabs: Vec<SidebarTab>,
}

/// One row of the sidebar.
#[derive(Clone, Debug)]
pub enum SidebarRow {
    /// The "WORKSPACES" header.
    Header,
    /// A workspace row; `label` is its name, or the rename field.
    Workspace { name: String, active: bool, expanded: bool, disclosure: char, label: String, renaming: bool },
    /// A tab row under an expanded workspace; `label` is its marked
    /// title, or the rename field.
    Tab { workspace: String, window_id: u64, tab_id: u64, label: String, renaming: bool },
}

/// A sidebar row as a value.
pub enum SidebarRowView {
    Header,
    Workspace {
        name: Seq<char>,
        active: bool,
        expanded: bool,
        disclosure: char,
        label: Seq<char>,
        renaming: bool,
    },
    Tab { workspace: Seq<char>, window_id: u64, tab_id: u64, label: Seq<char>, renaming: bool },
}

impl View for SidebarRow {
    type V = SidebarRowView;

    open spec fn view(&self) -> SidebarRowView {
        match self {
            SidebarRow::Header => SidebarRowView::Header,
            SidebarRow::Workspace { name, active, expanded, disclosure, label, renaming } => SidebarRowView::Workspace {
                name: name@,
                active: *active,
                expanded: *expanded,
                disclosure: *disclosure,
                label: label@,
                renaming: *renaming,
            },
            SidebarRow::Tab { workspace, window_id, tab_id, label, renaming } => SidebarRowView::Tab {
                workspace: workspace@,
                window_id: *window_id,
                tab_id: *tab_id,
                label: label@,
                renaming: *renaming,
            },
        }
    }
}

/// The rows as values.
pub open spec fn rows_view(v: Seq<SidebarRow>) -> Seq<SidebarRowView> {
    v.map_values(|r: SidebarRow| r@)
}

/// The text of the rename field: what was typed so far, then a bar.
pub open spec fn rename_field(buffer: Seq<char>) -> Seq<char> {
    buffer.push('|')
}

/// A workspace is expanded unless it is collapsed.
pub open spec fn is_expanded(collapsed: Seq<String>, name: Seq<char>) -> bool {
    !(exists|i: int| 0 <= i < collapsed.len() && #[trigger] collapsed[i]@ == name)
}

/// The workspace of this name is being renamed.
pub open spec fn renaming_workspace(rename: Option<SidebarRenameTarget>, name: Seq<char>) -> bool {
    rename matches Some(SidebarRenameTarget::Workspace(n)) && n@ == name
}

/// The tab with this id is being renamed.
pub open spec fn renaming_tab(rename: Option<SidebarRenameTarget>, id: u64) -> bool {
    rename matches Some(SidebarRenameTarget::Tab(t)) && t == id
}

/// A tab's title: its own, else its active pane's, else "(no pane)".
pub open spec fn tab_title(t: SidebarTab) -> Seq<char> {
    if t.title@.len() > 0 {
        t.title@
    } else {
        match t.pane_title {
            Some(s) => s@,
            None => "(no pane)"@,
        }
    }
}

/// The mark before a tab's title: a dot for the tab being viewed (the
/// active tab of its window, in the active workspace), else two spaces.
pub open spec fn tab_mark(current: bool) -> Seq<char> {
    if current {
        seq!['\u{25CF}', ' ']
    } else {
        seq![' ', ' ']
    }
}

/// The row of a tab.
pub open spec fn tab_row(
    ws: Seq<char>,
    ws_active: bool,
    t: SidebarTab,
    rename: Option<SidebarRenameTarget>,
    buffer: Seq<char>,
) -> SidebarRowView {
    let current = ws_active && t.window_active_tab == Some(t.tab_id);
    let renaming = renaming_tab(rename, t.tab_id);
    SidebarRowView::Tab {
        workspace: ws,
        window_id: t.window_id,
        tab_id: t.tab_id,
        label: if renaming {
            rename_field(buffer)
        } else {
            tab_mark(current) + tab_title(t)
        },
        renaming,
    }
}

/// The rows of one workspace: its own, then its tabs when expanded.
pub open spec fn workspace_rows(
    w: SidebarWorkspace,
    active: Seq<char>,
    collapsed: Seq<String>,
    rename: Option<SidebarRenameTarget>,
    buffer: Seq<char>,
) -> Seq<SidebarRowView> {
    let is_active = w.name@ == active;
    let expanded = is_expanded(collapsed, w.name@);
    let renaming = renaming_workspace(rename, w.name@);
    seq![
        SidebarRowView::Workspace {
            name: w.name@,
            active: is_active,
            expanded,
            disclosure: if expanded {
                '\u{25BC}'
            } else {
                '\u{25B6}'
            },
            label: if renaming {
                rename_field(buffer)
            } else {
                w.name@
            },
            renaming,
        },
    ] + if expanded {
        w.tabs@.map_values(|t: SidebarTab| tab_row(w.name@, is_active, t, rename, buffer))
    } else {
        Seq::empty()
    }
}

/// The rows of the first `n` workspaces, after the header.
pub open spec fn sidebar_rows_spec(
    workspaces: Seq<SidebarWorkspace>,
    active: Seq<char>,
    collapsed: Seq<String>,
    rename: Option<SidebarRenameTarget>,
    buffer: Seq<char>,
    n: int,
) -> Seq<SidebarRowView>
    decreases n,
{
    if n <= 0 {
        seq![SidebarRowView::Header]
    } else {
        sidebar_rows_spec(workspaces, active, collapsed, rename, buffer, n - 1) + workspace_rows(
            workspaces[n - 1],
            active,
            collapsed,
            rename,
            buffer,
        )
    }
}

/// Whether `name` is one of `collapsed`.
fn is_collapsed(collapsed: &Vec<String>, name: &str) -> (r: bool)
    ensures
        r == !is_expanded(collapsed@, name@),
{
    let mut i: usize = 0;
    while i < collapsed.len()
        invariant
            i <= collapsed.len(),
            forall|k: int| 0 <= k < i ==> (#[trigger] collapsed@[k])@ != name@,
        decreases collapsed.len() - i,
    {
        if str_eq(collapsed[i].as_str(), name) {
            return true;
        }
        i = i + 1;
    }
    false
}

/// The rename field for what was typed so far.
fn rename_text(buffer: &str) -> (r: String)
    ensures
        r@ == rename_field(buffer@),
{
    let mut cs = chars_of(buffer);
    cs.push('|');
    string_of(&cs)
}

/// The row of a tab.
fn make_tab_row(
    ws: &String,
    ws_active: bool,
    t: &SidebarTab,
    rename: &Option<SidebarRenameTarget>,
    buffer: &str,
) -> (r: SidebarRow)
    ensures
        r@ == tab_row(ws@, ws_active, *t, *rename, buffer@),
{
    let renaming = match rename {
        Some(SidebarRenameTarget::Tab(id)) => *id == t.tab_id,
        _ => false,
    };
    let current = ws_active && match t.window_active_tab {
        Some(a) => a == t.tab_id,
        None => false,
    };
    let label = if renaming {
        rename_text(buffer)
    } else {
        let mut cs: Vec<char> = Vec::new();
        if current {
            cs.push('\u{25CF}');
        } else {
            cs.push(' ');
        }
        cs.push(' ');
        assert(cs@ == tab_mark(current));
        if !t.title.as_str().is_empty() || t.pane_title.is_none() {
            if !t.title.as_str().is_empty() {
                append_str(&mut cs, t.title.as_str());
            } else {
                append_str(&mut cs, "(no pane)");
            }
        } else {
            match &t.pane_title {
                Some(s) => append_str(&mut cs, s.as_str()),
                None => {},
            }
        }
        string_of(&cs)
    };
    SidebarRow::Tab {
        workspace: ws.clone(),
        window_id: t.window_id,
        tab_id: t.tab_id,
        label,
        renaming,
    }
}

/// The rows of the workspace sidebar: the header, then for each workspace
/// in order its row (marked active when it is the active workspace, with
/// ▼ when expanded and ▶ when collapsed, showing the rename field while it
/// is renamed) and, when expanded, a row for each of its tabs (titled by
/// the tab, else its pane, else "(no pane)", with a dot for the tab being
/// viewed, or the rename field).
pub fn sidebar_rows(
    workspaces: &Vec<SidebarWorkspace>,
    active: &str,
    collapsed: &Vec<String>,
    rename: &Option<SidebarRenameTarget>,
    rename_buffer: &str,
) -> (r: Vec<SidebarRow>)
    ensures
        rows_view(r@) == sidebar_rows_spec(
            workspaces@,
            active@,
            collapsed@,
            *rename,
            rename_buffer@,
            workspaces.len() as int,
        ),
{
    let mut rows: Vec<SidebarRow> = Vec::new();
    rows.push(SidebarRow::Header);
    assert(rows_view(rows@) == seq![SidebarRowView::Header]);
    let mut i: usize = 0;
    while i < workspaces.len()
        invariant
            i <= workspaces.len(),
            rows_view(rows@) == sidebar_rows_spec(
                workspaces@,
                active@,
                collapsed@,
                *rename,
                rename_buffer@,
                i as int,
            ),
        decreases workspaces.len() - i,
    {
        let w = &workspaces[i];
        let ghost start = rows_view(rows@);
        let is_active = str_eq(w.name.as_str(), active);
        let expanded = !is_collapsed(collapsed, w.name.as_str());
        let renaming = match rename {
            Some(SidebarRenameTarget::Workspace(n)) => str_eq(n.as_str(), w.name.as_str()),
            _ => false,
        };
        let label = if renaming {
            rename_text(rename_buffer)
        } else {
            w.name.clone()
        };
        let disclosure = if expanded {
            '\u{25BC}'
        } else {
            '\u{25B6}'
        };
        let row = SidebarRow::Workspace { name: w.name.clone(), active: is_active, expanded, disclosure, label, renaming };
        rows.push(row);
        let ghost head = rows_view(rows@);
        assert(head == start.push(row@));
        if expanded {
            let ghost f = |t: SidebarTab| tab_row(w.name@, is_active, t, *rename, rename_buffer@);
            let mut j: usize = 0;
            while j < w.tabs.len()
                invariant
                    j <= w.tabs.len(),
                    f == (|t: SidebarTab| tab_row(w.name@, is_active, t, *rename, rename_buffer@)),
                    rows_view(rows@) == head + w.tabs@.take(j as int).map_values(f),
                decreases w.tabs.len() - j,
            {
                let tr = make_tab_row(&w.name, is_active, &w.tabs[j], rename, rename_buffer);
                let ghost before = rows@;
                rows.push(tr);
                proof {
                    assert(rows_view(rows@) == rows_view(before).push(tr@));
                    assert(w.tabs@.take(j + 1) == w.tabs@.take(j as int).push(w.tabs@[j as int]));
                    assert(w.tabs@.take(j + 1).map_values(f) == w.tabs@.take(j as int).map_values(f).push(
                        f(w.tabs@[j as int]),
                    ));
                }
                j = j + 1;
            }
            assert(w.tabs@.take(j as int) == w.tabs@);
        }
        assert(rows_view(rows@) == start + workspace_rows(*w, active@, collapsed@, *rename, rename_buffer@));
        i = i + 1;
    }
    rows
}


/// A tab row that is not being renamed starts with the dot exactly when
/// its workspace is the active one and the tab is the active tab of its
/// window; otherwise with two spaces.
pub proof fn law_dot_marks_viewed_tab(
    ws: Seq<char>,
    ws_active: bool,
    t: SidebarTab,
    rename: Option<SidebarRenameTarget>,
    buffer: Seq<char>,
)
    requires
        !renaming_tab(rename, t.tab_id),
    ensures
        tab_row(ws, ws_active, t, rename, buffer) matches SidebarRowView::Tab { label, .. } && label.len() >= 2
            && (label[0] == '\u{25CF}' <==> (ws_active && t.window_active_tab == Some(t.tab_id)))
            && label[1] == ' ',
{
}


/// Under an expanded workspace, the row after the workspace's own for
/// its `j`-th tab is that tab's row; when the tab is not being renamed,
/// its label is the mark (a dot and a space for the tab being viewed,
/// the active tab of its window in the active workspace, else two
/// spaces) followed by the tab's own title whenever that is not empty,
/// else its active pane's title, and "(no pane)" only when both are
/// missing.
pub proof fn law_tab_row_label(
    w: SidebarWorkspace,
    active: Seq<char>,
    collapsed: Seq<String>,
    rename: Option<SidebarRenameTarget>,
    buffer: Seq<char>,
    j: int,
)
    requires
        0 <= j < w.tabs@.len(),
        forall|k: int| 0 <= k < collapsed.len() ==> (#[trigger] collapsed[k])@ != w.name@,
        !(rename matches Some(SidebarRenameTarget::Tab(id)) && id == w.tabs@[j].tab_id),
    ensures
        ({
            let t = w.tabs@[j];
            let rows = workspace_rows(w, active, collapsed, rename, buffer);
            let mark = if w.name@ == active && t.window_active_tab == Some(t.tab_id) {
                seq!['\u{25CF}', ' ']
            } else {
                seq![' ', ' ']
            };
            let title = if t.title@.len() > 0 {
                t.title@
            } else if t.pane_title is Some {
                t.pane_title->0@
            } else {
                "(no pane)"@
            };
            &&& rows.len() == 1 + w.tabs@.len()
            &&& rows[1 + j] == SidebarRowView::Tab {
                workspace: w.name@,
                window_id: t.window_id,
                tab_id: t.tab_id,
                label: mark + title,
                renaming: false,
            }
        }),
{
    assert(is_expanded(collapsed, w.name@));
}

} // verus!
