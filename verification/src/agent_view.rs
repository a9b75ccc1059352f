//! The agents panel's folder view: the flat agent list projected onto the
//! spaces panel's folders and worktree families.
//!
//! Folders and spaces without agents are hidden, except a family parent
//! whose children have agents, which is shown "thin" so the children are
//! not orphaned.
use vstd::prelude::*;
use crate::folder::{contains_string, strs};
use crate::shell::{
    first_match, ints, lemma_prefix_first, lemma_step, sidebar_entries, sidebar_spec,
    space_header_agent_indent, ClientShellAgent, ClientShellSnapshot, ClientShellWorkspace,
    SidebarEntry, WorkspaceEntry, AGENT_PANEL_HEADER_GUTTER,
};
use crate::text::str_eq;
use crate::shell::{sat_add, Rect};

verus! {

/// A row of the agents panel folder view.
#[derive(Debug, Clone, PartialEq, Eq)]
pub enum AgentPanelRow {
    FolderHeader { folder_id: String, name: String, collapsed: bool, indicates_active: bool },
    SpaceHeader {
        workspace_id: String,
        label: String,
        indented: bool,
        last_child: bool,
        foldered: bool,
        /// A family parent without agents, shown so its children are not orphaned.
        thin: bool,
        collapsed: bool,
        indicates_active: bool,
    },
    /// A row of the agent list, by its index there; `None` where that row
    /// was already placed further up.
    Agent { agent_index: Option<usize>, indent: u16 },
}

/// The abstract value of a row, strings by their characters.
pub enum AgentRowView {
    FolderHeader { folder_id: Seq<char>, name: Seq<char>, collapsed: bool, indicates_active: bool },
    SpaceHeader {
        workspace_id: Seq<char>,
        label: Seq<char>,
        indented: bool,
        last_child: bool,
        foldered: bool,
        thin: bool,
        collapsed: bool,
        indicates_active: bool,
    },
    Agent { agent_index: Option<usize>, indent: u16 },
}

pub open spec fn row_view(r: AgentPanelRow) -> AgentRowView {
    match r {
        AgentPanelRow::FolderHeader { folder_id, name, collapsed, indicates_active } =>
            AgentRowView::FolderHeader { folder_id: folder_id@, name: name@, collapsed, indicates_active },
        AgentPanelRow::SpaceHeader { workspace_id, label, indented, last_child, foldered, thin, collapsed, indicates_active } =>
            AgentRowView::SpaceHeader {
                workspace_id: workspace_id@,
                label: label@,
                indented,
                last_child,
                foldered,
                thin,
                collapsed,
                indicates_active,
            },
        AgentPanelRow::Agent { agent_index, indent } => AgentRowView::Agent { agent_index, indent },
    }
}

pub open spec fn rows_view(v: Seq<AgentPanelRow>) -> Seq<AgentRowView> {
    v.map_values(|r: AgentPanelRow| row_view(r))
}

/// Whether an agent runs on pane `pane`.
pub open spec fn on_pane(pane: Seq<char>) -> spec_fn(ClientShellAgent) -> bool {
    |a: ClientShellAgent| a.pane_id@ == pane
}

/// The workspace of the first snapshot agent on pane `pane`.
pub open spec fn pane_workspace(snap: ClientShellSnapshot, pane: Seq<char>) -> Option<Seq<char>> {
    match first_match(snap.agents@, on_pane(pane)) {
        Some(i) => Some(snap.agents@[i].workspace_id@),
        None => None,
    }
}

/// The agent rows, by index, whose pane belongs to workspace `w`, in order.
pub open spec fn agent_rows_of(snap: ClientShellSnapshot, panes: Seq<Seq<char>>, w: Seq<char>) -> Seq<int>
    decreases panes.len(),
{
    if panes.len() == 0 {
        seq![]
    } else {
        let before = agent_rows_of(snap, panes.drop_last(), w);
        if pane_workspace(snap, panes.last()) == Some(w) {
            before.push(panes.len() - 1)
        } else {
            before
        }
    }
}

pub open spec fn has_agents(snap: ClientShellSnapshot, panes: Seq<Seq<char>>, w: Seq<char>) -> bool {
    agent_rows_of(snap, panes, w).len() > 0
}

/// The workspace a spaces panel row shows, if it is a workspace row.
pub open spec fn row_workspace(snap: ClientShellSnapshot, e: SidebarEntry) -> Option<Seq<char>> {
    match e {
        SidebarEntry::Workspace { entry, .. } => if entry.index < snap.workspaces@.len() {
            Some(snap.workspaces@[entry.index as int].workspace_id@)
        } else {
            None
        },
        SidebarEntry::Folder { .. } => None,
    }
}

/// Rows of a folder's members (`foldered`), or of a family's children.
pub open spec fn run_row(foldered: bool) -> spec_fn(SidebarEntry) -> bool {
    |e: SidebarEntry| match e {
        SidebarEntry::Workspace { entry, foldered: f } => if foldered { f } else { entry.indented },
        SidebarEntry::Folder { .. } => false,
    }
}

/// A workspace row whose workspace has agents.
pub open spec fn row_has_agents(snap: ClientShellSnapshot, panes: Seq<Seq<char>>) -> spec_fn(SidebarEntry) -> bool {
    |e: SidebarEntry| row_workspace(snap, e) matches Some(w) && has_agents(snap, panes, w)
}

/// A workspace row of the focused workspace.
pub open spec fn row_is_focused(snap: ClientShellSnapshot) -> spec_fn(SidebarEntry) -> bool {
    |e: SidebarEntry| row_workspace(snap, e) matches Some(w) && snap.focused_workspace_id matches Some(f) && f@ == w
}

/// Whether the run of rows from `from` on that satisfy `run` holds one
/// that satisfies `test`.
pub open spec fn run_holds(
    rows: Seq<SidebarEntry>,
    from: int,
    run: spec_fn(SidebarEntry) -> bool,
    test: spec_fn(SidebarEntry) -> bool,
) -> bool
    decreases rows.len() - from,
{
    if from < 0 || from >= rows.len() || !run(rows[from]) {
        false
    } else if test(rows[from]) {
        true
    } else {
        run_holds(rows, from + 1, run, test)
    }
}

/// A branch name with a leading `worktree/` removed.
pub open spec fn strip_worktree(b: Seq<char>) -> Seq<char> {
    if "worktree/"@.is_prefix_of(b) {
        b.skip("worktree/"@.len() as int)
    } else {
        b
    }
}

/// A space header's label: a worktree child without a custom label shows
/// its branch.
pub open spec fn header_label(w: ClientShellWorkspace, indented: bool) -> Seq<char> {
    if indented && !w.custom_label {
        match w.branch {
            Some(b) => strip_worktree(b@),
            None => w.label@,
        }
    } else {
        w.label@
    }
}

/// Indent of a space's agent rows.
pub open spec fn agent_indent(indented: bool, foldered: bool) -> u16 {
    (AGENT_PANEL_HEADER_GUTTER + (if foldered { 2int } else { 0 }) + (if indented { 6int } else { 0 }) + 1) as u16
}

/// The state of the projection: rows so far, the folder whose header waits
/// for its first shown member, whether a collapsed folder or a collapsed
/// family parent hides the rows that follow, and the agent rows placed.
pub struct AgentWalk {
    pub rows: Seq<AgentRowView>,
    pub pending: Option<int>,
    pub in_folder: bool,
    pub in_parent: bool,
    pub taken: Seq<bool>,
}

/// Appending the agent rows `idx`; a row placed before shows as `None`.
pub open spec fn place_agents(rows: Seq<AgentRowView>, taken: Seq<bool>, idx: Seq<int>, indent: u16) -> (Seq<AgentRowView>, Seq<bool>)
    decreases idx.len(),
{
    if idx.len() == 0 {
        (rows, taken)
    } else {
        let (r, t) = place_agents(rows, taken, idx.drop_last(), indent);
        let k = idx.last();
        if t[k] {
            (r.push(AgentRowView::Agent { agent_index: None, indent }), t)
        } else {
            (r.push(AgentRowView::Agent { agent_index: Some(k as usize), indent }), t.update(k, true))
        }
    }
}

/// An expanded folder's header.
pub open spec fn open_folder_row(snap: ClientShellSnapshot, fi: int) -> AgentRowView {
    AgentRowView::FolderHeader {
        folder_id: snap.folders@[fi].folder_id@,
        name: snap.folders@[fi].name@,
        collapsed: false,
        indicates_active: false,
    }
}

/// A folder header row: a collapsed folder shows its header only when a
/// member has agents, and hides its members; an expanded folder's header
/// waits for its first shown member.
pub open spec fn folder_step(snap: ClientShellSnapshot, panes: Seq<Seq<char>>, cf: Seq<Seq<char>>, all: Seq<SidebarEntry>, st: AgentWalk, pos: int, fi: int) -> AgentWalk {
    if fi >= snap.folders@.len() {
        st
    } else {
        let folder = snap.folders@[fi];
        if cf.contains(folder.folder_id@) {
            let shown = run_holds(all, pos + 1, run_row(true), row_has_agents(snap, panes));
            let active = snap.focused_workspace_id matches Some(f) && strs(folder.members@).contains(f@);
            AgentWalk {
                rows: if shown {
                    st.rows.push(AgentRowView::FolderHeader {
                        folder_id: folder.folder_id@,
                        name: folder.name@,
                        collapsed: true,
                        indicates_active: active,
                    })
                } else {
                    st.rows
                },
                pending: None,
                in_folder: true,
                in_parent: false,
                taken: st.taken,
            }
        } else {
            AgentWalk { rows: st.rows, pending: Some(fi), in_folder: false, in_parent: false, taken: st.taken }
        }
    }
}

/// A workspace row: hidden in a collapsed folder or under a collapsed
/// parent, or when neither it nor (for a parent) a child has agents;
/// otherwise its header, then its agent rows unless it is collapsed.
pub open spec fn space_step(
    snap: ClientShellSnapshot,
    panes: Seq<Seq<char>>,
    cas: Seq<Seq<char>>,
    all: Seq<SidebarEntry>,
    st: AgentWalk,
    pos: int,
    entry: WorkspaceEntry,
    foldered: bool,
) -> AgentWalk {
    let in_folder = foldered && st.in_folder;
    let in_parent = entry.indented && st.in_parent;
    let skipped = AgentWalk { rows: st.rows, pending: st.pending, in_folder, in_parent, taken: st.taken };
    if in_folder {
        AgentWalk { rows: st.rows, pending: st.pending, in_folder, in_parent: st.in_parent, taken: st.taken }
    } else if in_parent || entry.index >= snap.workspaces@.len() {
        skipped
    } else {
        let w = snap.workspaces@[entry.index as int];
        let id = w.workspace_id@;
        let thin = !has_agents(snap, panes, id);
        if thin && !(!entry.indented && run_holds(all, pos + 1, run_row(false), row_has_agents(snap, panes))) {
            skipped
        } else {
            let rows1 = if foldered {
                match st.pending {
                    Some(fi) => st.rows.push(open_folder_row(snap, fi)),
                    None => st.rows,
                }
            } else {
                st.rows
            };
            let pending = if foldered { None } else { st.pending };
            let collapsed = !thin && cas.contains(id);
            let hidden_child_focused = collapsed && !entry.indented
                && run_holds(all, pos + 1, run_row(false), row_is_focused(snap));
            let in_parent2 = if collapsed && !entry.indented { true } else { in_parent };
            let rows2 = rows1.push(AgentRowView::SpaceHeader {
                workspace_id: id,
                label: header_label(w, entry.indented),
                indented: entry.indented,
                last_child: entry.last_child,
                foldered,
                thin,
                collapsed,
                indicates_active: collapsed && (w.focused || hidden_child_focused),
            });
            if collapsed {
                AgentWalk { rows: rows2, pending, in_folder, in_parent: in_parent2, taken: st.taken }
            } else {
                let placed = place_agents(rows2, st.taken, agent_rows_of(snap, panes, id), agent_indent(entry.indented, foldered));
                AgentWalk { rows: placed.0, pending, in_folder, in_parent: in_parent2, taken: placed.1 }
            }
        }
    }
}

pub open spec fn agent_step(snap: ClientShellSnapshot, panes: Seq<Seq<char>>, cf: Seq<Seq<char>>, cas: Seq<Seq<char>>, all: Seq<SidebarEntry>, st: AgentWalk, pos: int) -> AgentWalk {
    match all[pos] {
        SidebarEntry::Folder { folder_index } => folder_step(snap, panes, cf, all, st, pos, folder_index as int),
        SidebarEntry::Workspace { entry, foldered } => space_step(snap, panes, cas, all, st, pos, entry, foldered),
    }
}

/// The projection after the first `n` spaces panel rows.
pub open spec fn agent_walk(snap: ClientShellSnapshot, panes: Seq<Seq<char>>, cf: Seq<Seq<char>>, cas: Seq<Seq<char>>, all: Seq<SidebarEntry>, n: int) -> AgentWalk
    decreases n,
{
    if n <= 0 {
        AgentWalk { rows: seq![], pending: None, in_folder: false, in_parent: false, taken: Seq::new(panes.len(), |k: int| false) }
    } else {
        agent_step(snap, panes, cf, cas, all, agent_walk(snap, panes, cf, cas, all, n - 1), n - 1)
    }
}

/// The folder view rows: the fully expanded spaces panel rows walked in
/// order, with agent rows `panes` (by pane id) placed under their spaces.
pub open spec fn agent_view_spec(snap: ClientShellSnapshot, panes: Seq<Seq<char>>, cf: Seq<Seq<char>>, cas: Seq<Seq<char>>, flat: Seq<WorkspaceEntry>) -> Seq<AgentRowView> {
    let all = sidebar_spec(snap, seq![], seq![], true, flat);
    agent_walk(snap, panes, cf, cas, all, all.len() as int).rows
}


/// `r` is the index of the first snapshot agent on pane `pane`.
pub open spec fn is_first_agent(snap: ClientShellSnapshot, pane: Seq<char>, r: Option<usize>) -> bool {
    match r {
        Some(k) => k < snap.agents@.len() && first_match(snap.agents@, on_pane(pane)) == Some(k as int),
        None => first_match(snap.agents@, on_pane(pane)) is None,
    }
}

/// The index of the first snapshot agent on pane `pane`.
fn agent_on_pane(snapshot: &ClientShellSnapshot, pane: &str) -> (r: Option<usize>)
    ensures
        is_first_agent(*snapshot, pane@, r),
{
    let ghost p = on_pane(pane@);
    let mut i: usize = 0;
    while i < snapshot.agents.len()
        invariant
            i <= snapshot.agents@.len(),
            p == on_pane(pane@),
            first_match(snapshot.agents@.take(i as int), p) is None,
        decreases snapshot.agents.len() - i,
    {
        proof { lemma_step(snapshot.agents@, i as int, p); }
        if str_eq(snapshot.agents[i].pane_id.as_str(), pane) {
            proof { lemma_prefix_first(snapshot.agents@, i as int + 1, p); }
            return Some(i);
        }
        i = i + 1;
    }
    proof { assert(snapshot.agents@.take(i as int) =~= snapshot.agents@); }
    None
}

/// For each agent row, the first snapshot agent on its pane.
fn pane_agents(snapshot: &ClientShellSnapshot, panes: &Vec<String>) -> (r: Vec<Option<usize>>)
    ensures
        r@.len() == panes@.len(),
        forall|k: int| 0 <= k < panes@.len() ==> is_first_agent(*snapshot, panes@[k]@, #[trigger] r@[k]),
{
    let mut r: Vec<Option<usize>> = Vec::new();
    let mut k: usize = 0;
    while k < panes.len()
        invariant
            k <= panes@.len(),
            r@.len() == k,
            forall|j: int| 0 <= j < k ==> is_first_agent(*snapshot, panes@[j]@, #[trigger] r@[j]),
        decreases panes.len() - k,
    {
        let a = agent_on_pane(snapshot, panes[k].as_str());
        r.push(a);
        k = k + 1;
    }
    r
}

/// The agent rows of workspace `w`, by index, in order.
fn agent_rows_for(snapshot: &ClientShellSnapshot, panes: &Vec<String>, agents: &Vec<Option<usize>>, w: &str) -> (r: Vec<usize>)
    requires
        agents@.len() == panes@.len(),
        forall|k: int| 0 <= k < panes@.len() ==> is_first_agent(*snapshot, panes@[k]@, #[trigger] agents@[k]),
    ensures
        ints(r@) == agent_rows_of(*snapshot, strs(panes@), w@),
        forall|j: int| 0 <= j < r@.len() ==> #[trigger] r@[j] < panes@.len(),
{
    let ghost ps = strs(panes@);
    let mut r: Vec<usize> = Vec::new();
    let mut k: usize = 0;
    while k < panes.len()
        invariant
            k <= panes@.len(),
            ps == strs(panes@),
            agents@.len() == panes@.len(),
            forall|j: int| 0 <= j < panes@.len() ==> is_first_agent(*snapshot, panes@[j]@, #[trigger] agents@[j]),
            ints(r@) == agent_rows_of(*snapshot, ps.take(k as int), w@),
            forall|j: int| 0 <= j < r@.len() ==> #[trigger] r@[j] < k,
        decreases panes.len() - k,
    {
        proof {
            assert(ps.take(k + 1).drop_last() =~= ps.take(k as int));
            assert(ps.take(k + 1).last() == panes@[k as int]@);
        }
        let ghost before = r@;
        let ghost pk = panes@[k as int]@;
        assert(is_first_agent(*snapshot, pk, agents@[k as int]));
        let belongs = match agents[k] {
            Some(a) => str_eq(snapshot.agents[a].workspace_id.as_str(), w),
            None => false,
        };
        proof {
            assert(ps.take(k + 1).last() == pk);
            assert(belongs == (pane_workspace(*snapshot, pk) == Some(w@)));
        }
        if belongs {
            r.push(k);
            proof { assert(ints(r@) =~= ints(before).push(k as int)); }
        }
        k = k + 1;
    }
    proof { assert(ps.take(panes@.len() as int) =~= ps); }
    r
}

/// Whether the run of `foldered` (else child) rows from `from` on holds a
/// workspace with agents.
fn run_has_agents(
    snapshot: &ClientShellSnapshot,
    panes: &Vec<String>,
    agents: &Vec<Option<usize>>,
    rows: &Vec<SidebarEntry>,
    from: usize,
    foldered: bool,
) -> (r: bool)
    requires
        agents@.len() == panes@.len(),
        forall|k: int| 0 <= k < panes@.len() ==> is_first_agent(*snapshot, panes@[k]@, #[trigger] agents@[k]),
    ensures
        r == run_holds(rows@, from as int, run_row(foldered), row_has_agents(*snapshot, strs(panes@))),
{
    let ghost run = run_row(foldered);
    let ghost test = row_has_agents(*snapshot, strs(panes@));
    let mut i: usize = from;
    while i < rows.len()
        invariant
            from <= i,
            run == run_row(foldered),
            test == row_has_agents(*snapshot, strs(panes@)),
            agents@.len() == panes@.len(),
            forall|k: int| 0 <= k < panes@.len() ==> is_first_agent(*snapshot, panes@[k]@, #[trigger] agents@[k]),
            run_holds(rows@, from as int, run, test) == run_holds(rows@, i as int, run, test),
        decreases rows.len() - i,
    {
        let e = rows[i];
        let in_run = match e {
            SidebarEntry::Workspace { entry, foldered: f } => if foldered { f } else { entry.indented },
            SidebarEntry::Folder { .. } => false,
        };
        if !in_run {
            return false;
        }
        let hit = match e {
            SidebarEntry::Workspace { entry, .. } => if entry.index < snapshot.workspaces.len() {
                let found = agent_rows_for(snapshot, panes, agents, snapshot.workspaces[entry.index].workspace_id.as_str());
                found.len() > 0
            } else {
                false
            },
            SidebarEntry::Folder { .. } => false,
        };
        if hit {
            return true;
        }
        i = i + 1;
    }
    false
}

/// Whether the run of child rows from `from` on holds the focused workspace.
fn run_has_focused(snapshot: &ClientShellSnapshot, rows: &Vec<SidebarEntry>, from: usize) -> (r: bool)
    ensures
        r == run_holds(rows@, from as int, run_row(false), row_is_focused(*snapshot)),
{
    let ghost run = run_row(false);
    let ghost test = row_is_focused(*snapshot);
    let mut i: usize = from;
    while i < rows.len()
        invariant
            from <= i,
            run == run_row(false),
            test == row_is_focused(*snapshot),
            run_holds(rows@, from as int, run, test) == run_holds(rows@, i as int, run, test),
        decreases rows.len() - i,
    {
        let e = rows[i];
        match e {
            SidebarEntry::Workspace { entry, .. } => {
                if !entry.indented {
                    return false;
                }
                if entry.index < snapshot.workspaces.len() {
                    let hit = match &snapshot.focused_workspace_id {
                        Some(f) => str_eq(snapshot.workspaces[entry.index].workspace_id.as_str(), f.as_str()),
                        None => false,
                    };
                    if hit {
                        return true;
                    }
                }
            },
            SidebarEntry::Folder { .. } => {
                return false;
            },
        }
        i = i + 1;
    }
    false
}

/// `b` without a leading `worktree/`.
fn strip_worktree_prefix(b: &str) -> (r: String)
    ensures
        r@ == strip_worktree(b@),
{
    let p = "worktree/";
    let n = b.unicode_len();
    let m = p.unicode_len();
    if m > n {
        return b.to_owned();
    }
    let mut i: usize = 0;
    while i < m && p.get_char(i) == b.get_char(i)
        invariant
            i <= m <= n,
            m == p@.len(),
            n == b@.len(),
            p@.subrange(0, i as int) =~= b@.subrange(0, i as int),
        decreases m - i,
    {
        proof {
            assert(p@.subrange(0, i + 1) =~= p@.subrange(0, i as int).push(p@[i as int]));
            assert(b@.subrange(0, i + 1) =~= b@.subrange(0, i as int).push(b@[i as int]));
        }
        i = i + 1;
    }
    if i == m {
        proof { assert(p@ =~= p@.subrange(0, m as int)); }
        b.substring_char(m, n).to_owned()
    } else {
        proof {
            if p@.is_prefix_of(b@) {
                assert(p@[i as int] == b@.subrange(0, m as int)[i as int]);
            }
        }
        b.to_owned()
    }
}

/// A space header's label.
fn space_label(w: &ClientShellWorkspace, indented: bool) -> (r: String)
    ensures
        r@ == header_label(*w, indented),
{
    if indented && !w.custom_label {
        match &w.branch {
            Some(b) => strip_worktree_prefix(b.as_str()),
            None => w.label.clone(),
        }
    } else {
        w.label.clone()
    }
}

/// Appends the agent rows `idx`, each placed once.
fn place_agent_rows(rows: &mut Vec<AgentPanelRow>, taken: &mut Vec<bool>, idx: &Vec<usize>, indent: u16)
    requires
        forall|j: int| 0 <= j < idx@.len() ==> #[trigger] idx@[j] < old(taken)@.len(),
    ensures
        final(taken)@.len() == old(taken)@.len(),
        (rows_view(final(rows)@), final(taken)@) == place_agents(rows_view(old(rows)@), old(taken)@, ints(idx@), indent),
{
    let ghost rows0 = rows_view(rows@);
    let ghost taken0 = taken@;
    let ghost is = ints(idx@);
    let mut j: usize = 0;
    while j < idx.len()
        invariant
            j <= idx@.len(),
            is == ints(idx@),
            taken@.len() == taken0.len(),
            forall|q: int| 0 <= q < idx@.len() ==> #[trigger] idx@[q] < taken0.len(),
            (rows_view(rows@), taken@) == place_agents(rows0, taken0, is.take(j as int), indent),
        decreases idx.len() - j,
    {
        proof {
            assert(is.take(j + 1).drop_last() =~= is.take(j as int));
            assert(is.take(j + 1).last() == idx@[j as int] as int);
        }
        let k = idx[j];
        let ghost before = rows@;
        if taken[k] {
            rows.push(AgentPanelRow::Agent { agent_index: None, indent });
        } else {
            rows.push(AgentPanelRow::Agent { agent_index: Some(k), indent });
            taken.set(k, true);
        }
        proof { assert(rows_view(rows@) =~= rows_view(before).push(row_view(rows@.last()))); }
        j = j + 1;
    }
    proof { assert(is.take(idx@.len() as int) =~= is); }
}

/// The projection's state while walking the rows.
struct WalkState {
    rows: Vec<AgentPanelRow>,
    pending: Option<usize>,
    in_folder: bool,
    in_parent: bool,
    taken: Vec<bool>,
}

spec fn walk_view(w: WalkState) -> AgentWalk {
    AgentWalk {
        rows: rows_view(w.rows@),
        pending: match w.pending {
            Some(p) => Some(p as int),
            None => None,
        },
        in_folder: w.in_folder,
        in_parent: w.in_parent,
        taken: w.taken@,
    }
}

/// The walk's state is consistent with the snapshot and the agent rows.
spec fn walk_ok(w: WalkState, snap: ClientShellSnapshot, n: nat) -> bool {
    &&& w.taken@.len() == n
    &&& (w.pending matches Some(p) ==> p < snap.folders@.len())
}

proof fn lemma_rows_push(v: Seq<AgentPanelRow>, x: AgentPanelRow)
    ensures
        rows_view(v.push(x)) == rows_view(v).push(row_view(x)),
{
    assert(rows_view(v.push(x)) =~= rows_view(v).push(row_view(x)));
}

fn folder_row(
    snapshot: &ClientShellSnapshot,
    panes: &Vec<String>,
    agents: &Vec<Option<usize>>,
    collapsed_folders: &Vec<String>,
    all: &Vec<SidebarEntry>,
    st: &mut WalkState,
    pos: usize,
    fi: usize,
)
    requires
        agents@.len() == panes@.len(),
        forall|k: int| 0 <= k < panes@.len() ==> is_first_agent(*snapshot, panes@[k]@, #[trigger] agents@[k]),
        walk_ok(*old(st), *snapshot, panes@.len()),
        pos < all.len(),
    ensures
        walk_ok(*final(st), *snapshot, panes@.len()),
        walk_view(*final(st)) == folder_step(*snapshot, strs(panes@), strs(collapsed_folders@), all@, walk_view(*old(st)), pos as int, fi as int),
{
    if fi >= snapshot.folders.len() {
        return;
    }
    let folder = &snapshot.folders[fi];
    st.in_parent = false;
    st.in_folder = contains_string(collapsed_folders, folder.folder_id.as_str());
    if st.in_folder {
        st.pending = None;
        if run_has_agents(snapshot, panes, agents, all, pos + 1, true) {
            let active = match &snapshot.focused_workspace_id {
                Some(f) => contains_string(&folder.members, f.as_str()),
                None => false,
            };
            let ghost before = st.rows@;
            st.rows.push(AgentPanelRow::FolderHeader {
                folder_id: folder.folder_id.clone(),
                name: folder.name.clone(),
                collapsed: true,
                indicates_active: active,
            });
            proof { lemma_rows_push(before, st.rows@.last()); }
        }
    } else {
        st.pending = Some(fi);
    }
}

fn space_row(
    snapshot: &ClientShellSnapshot,
    panes: &Vec<String>,
    agents: &Vec<Option<usize>>,
    collapsed_agent_spaces: &Vec<String>,
    all: &Vec<SidebarEntry>,
    st: &mut WalkState,
    pos: usize,
    entry: WorkspaceEntry,
    foldered: bool,
)
    requires
        agents@.len() == panes@.len(),
        forall|k: int| 0 <= k < panes@.len() ==> is_first_agent(*snapshot, panes@[k]@, #[trigger] agents@[k]),
        walk_ok(*old(st), *snapshot, panes@.len()),
        pos < all.len(),
    ensures
        walk_ok(*final(st), *snapshot, panes@.len()),
        walk_view(*final(st)) == space_step(*snapshot, strs(panes@), strs(collapsed_agent_spaces@), all@, walk_view(*old(st)), pos as int, entry, foldered),
{
    if !foldered {
        st.in_folder = false;
    }
    if foldered && st.in_folder {
        return;
    }
    if !entry.indented {
        st.in_parent = false;
    }
    if entry.indented && st.in_parent {
        return;
    }
    if entry.index >= snapshot.workspaces.len() {
        return;
    }
    let w = &snapshot.workspaces[entry.index];
    let idx = agent_rows_for(snapshot, panes, agents, w.workspace_id.as_str());
    let thin = idx.len() == 0;
    if thin {
        let child_has_agents = !entry.indented && run_has_agents(snapshot, panes, agents, all, pos + 1, false);
        if !child_has_agents {
            return;
        }
    }
    if foldered {
        match st.pending {
            Some(fi) => {
                let folder = &snapshot.folders[fi];
                let ghost before = st.rows@;
                st.rows.push(AgentPanelRow::FolderHeader {
                    folder_id: folder.folder_id.clone(),
                    name: folder.name.clone(),
                    collapsed: false,
                    indicates_active: false,
                });
                proof { lemma_rows_push(before, st.rows@.last()); }
            },
            None => {},
        }
        st.pending = None;
    }
    let collapsed = !thin && contains_string(collapsed_agent_spaces, w.workspace_id.as_str());
    let hidden_child_focused = collapsed && !entry.indented && run_has_focused(snapshot, all, pos + 1);
    if collapsed && !entry.indented {
        st.in_parent = true;
    }
    let label = space_label(w, entry.indented);
    let ghost before = st.rows@;
    st.rows.push(AgentPanelRow::SpaceHeader {
        workspace_id: w.workspace_id.clone(),
        label,
        indented: entry.indented,
        last_child: entry.last_child,
        foldered,
        thin,
        collapsed,
        indicates_active: collapsed && (w.focused || hidden_child_focused),
    });
    proof { lemma_rows_push(before, st.rows@.last()); }
    if !collapsed {
        let indent = space_header_agent_indent(entry.indented, foldered);
        place_agent_rows(&mut st.rows, &mut st.taken, &idx, indent);
    }
}

/// Projects the agent list onto the folder view. `agent_panes` holds the
/// pane ids of the agent list's rows, in its order; `flat_entries` is the
/// spaces panel's own listing where the snapshot has no folders. Folders
/// and spaces without agents are hidden, except a family parent whose
/// children have agents; a collapsed folder shows its header alone, and a
/// collapsed space (or family parent) hides its agents (and children).
pub fn agent_folder_view_rows(
    snapshot: &ClientShellSnapshot,
    agent_panes: &Vec<String>,
    collapsed_folders: &Vec<String>,
    collapsed_agent_spaces: &Vec<String>,
    flat_entries: Vec<WorkspaceEntry>,
) -> (r: Vec<AgentPanelRow>)
    ensures
        rows_view(r@) == agent_view_spec(*snapshot, strs(agent_panes@), strs(collapsed_folders@), strs(collapsed_agent_spaces@), flat_entries@),
{
    let agents = pane_agents(snapshot, agent_panes);
    let no_keys: Vec<String> = Vec::new();
    proof { assert(strs(no_keys@) =~= Seq::<Seq<char>>::empty()); }
    let all = sidebar_entries(snapshot, &no_keys, &no_keys, true, flat_entries);
    let ghost panes = strs(agent_panes@);
    let ghost cf = strs(collapsed_folders@);
    let ghost cas = strs(collapsed_agent_spaces@);
    let mut taken: Vec<bool> = Vec::new();
    let mut k: usize = 0;
    while k < agent_panes.len()
        invariant
            k <= agent_panes@.len(),
            taken@ == Seq::new(k as nat, |q: int| false),
        decreases agent_panes.len() - k,
    {
        taken.push(false);
        proof { assert(taken@ =~= Seq::new((k + 1) as nat, |q: int| false)); }
        k = k + 1;
    }
    let mut st = WalkState { rows: Vec::new(), pending: None, in_folder: false, in_parent: false, taken };
    proof { assert(rows_view(st.rows@) =~= Seq::<AgentRowView>::empty()); }
    let mut pos: usize = 0;
    while pos < all.len()
        invariant
            pos <= all@.len(),
            panes == strs(agent_panes@),
            cf == strs(collapsed_folders@),
            cas == strs(collapsed_agent_spaces@),
            agents@.len() == agent_panes@.len(),
            forall|q: int| 0 <= q < agent_panes@.len() ==> is_first_agent(*snapshot, agent_panes@[q]@, #[trigger] agents@[q]),
            walk_ok(st, *snapshot, agent_panes@.len()),
            walk_view(st) == agent_walk(*snapshot, panes, cf, cas, all@, pos as int),
        decreases all.len() - pos,
    {
        match all[pos] {
            SidebarEntry::Folder { folder_index } => {
                folder_row(snapshot, agent_panes, &agents, collapsed_folders, &all, &mut st, pos, folder_index);
            },
            SidebarEntry::Workspace { entry, foldered } => {
                space_row(snapshot, agent_panes, &agents, collapsed_agent_spaces, &all, &mut st, pos, entry, foldered);
            },
        }
        pos = pos + 1;
    }
    st.rows
}

/// Whether the agents panel shows the folder view: it is sorted by folders
/// and no API agent view overrides it.
pub fn agent_folder_view_active(snapshot: &ClientShellSnapshot, sorted_by_folders: bool) -> (r: bool)
    ensures
        r == (sorted_by_folders && snapshot.agent_view_label is None),
{
    sorted_by_folders && snapshot.agent_view_label.is_none()
}

/// Where a folder view row is drawn.
#[derive(Debug, Clone, Copy, PartialEq, Eq)]
pub struct RowPlacement {
    /// Index of the row.
    pub row: usize,
    pub rect: Rect,
}

/// A row's height: headers take one line; an agent row takes its lines
/// (`agent_lines`, by agent-row index), at least one and at most `u16::MAX`.
pub open spec fn row_height(rows: Seq<AgentPanelRow>, agent_lines: Seq<usize>, i: int) -> u16 {
    match rows[i] {
        AgentPanelRow::Agent { agent_index: Some(k), .. } => if k < agent_lines.len() {
            let n = agent_lines[k as int];
            if n == 0 { 1 } else if n > u16::MAX { u16::MAX } else { n as u16 }
        } else {
            1
        },
        _ => 1,
    }
}

/// The gap after row `i`: the row gap after an agent row, none after the last row.
pub open spec fn row_gap_after(rows: Seq<AgentPanelRow>, i: int, row_gap: u16) -> u16 {
    if i + 1 >= rows.len() {
        0
    } else if rows[i] is Agent {
        row_gap
    } else {
        0
    }
}

/// The rows from `i` on placed top down from line `y` in `body`, each cut
/// to the body's height, up to the first that would pass its bottom.
pub open spec fn layout_from(
    rows: Seq<AgentPanelRow>,
    agent_lines: Seq<usize>,
    body: Rect,
    width: u16,
    row_gap: u16,
    i: int,
    y: u16,
) -> Seq<RowPlacement>
    decreases rows.len() - i,
{
    if i < 0 || i >= rows.len() {
        seq![]
    } else {
        let h = if row_height(rows, agent_lines, i) <= body.height { row_height(rows, agent_lines, i) } else { body.height };
        if sat_add(y, h) > body.bottom_spec() {
            seq![]
        } else {
            seq![RowPlacement { row: i as usize, rect: Rect { x: body.x, y, width, height: h } }]
                + layout_from(rows, agent_lines, body, width, row_gap, i + 1, sat_add(sat_add(y, h), row_gap_after(rows, i, row_gap)))
        }
    }
}

/// The placements of the agents panel folder view in `body`, scrolled to
/// start at row `first_row`; `scrollbar` takes the body's last column.
pub open spec fn agent_layout_spec(
    rows: Seq<AgentPanelRow>,
    agent_lines: Seq<usize>,
    body: Rect,
    row_gap: u16,
    first_row: usize,
    scrollbar: bool,
) -> Seq<RowPlacement> {
    if body.width == 0 || body.height == 0 || rows.len() == 0 {
        seq![]
    } else {
        let width = if scrollbar { (body.width - 1) as u16 } else { body.width };
        layout_from(rows, agent_lines, body, width, row_gap, first_row as int, body.y)
    }
}

fn row_height_exec(rows: &Vec<AgentPanelRow>, agent_lines: &Vec<usize>, i: usize) -> (h: u16)
    requires
        i < rows@.len(),
    ensures
        h == row_height(rows@, agent_lines@, i as int),
{
    match &rows[i] {
        AgentPanelRow::Agent { agent_index: Some(k), .. } => if *k < agent_lines.len() {
            let n = agent_lines[*k];
            if n == 0 { 1 } else if n > 65535 { 65535 } else { n as u16 }
        } else {
            1
        },
        _ => 1,
    }
}

/// Lays out the agents panel folder view: where each visible row goes in
/// `body`, starting at the scroll position `first_row`. Headers take one
/// line, agent rows their line counts `agent_lines`; agent rows are
/// followed by `row_gap` blank lines except the last row.
pub fn agent_folder_view_layout(
    rows: &Vec<AgentPanelRow>,
    agent_lines: &Vec<usize>,
    body: Rect,
    row_gap: u16,
    first_row: usize,
    scrollbar: bool,
) -> (r: Vec<RowPlacement>)
    ensures
        r@ == agent_layout_spec(rows@, agent_lines@, body, row_gap, first_row, scrollbar),
{
    let mut r: Vec<RowPlacement> = Vec::new();
    if body.width == 0 || body.height == 0 || rows.len() == 0 {
        return r;
    }
    let width = if scrollbar { body.width - 1 } else { body.width };
    let bottom = body.bottom();
    let mut i: usize = first_row;
    let mut y: u16 = body.y;
    let ghost total = layout_from(rows@, agent_lines@, body, width, row_gap, first_row as int, body.y);
    proof { assert(total == Seq::<RowPlacement>::empty() + total); }
    while i < rows.len()
        invariant
            first_row <= i,
            bottom == body.bottom_spec(),
            total == layout_from(rows@, agent_lines@, body, width, row_gap, first_row as int, body.y),
            total == agent_layout_spec(rows@, agent_lines@, body, row_gap, first_row, scrollbar),
            total == r@ + layout_from(rows@, agent_lines@, body, width, row_gap, i as int, y),
        decreases rows.len() - i,
    {
        let full = row_height_exec(rows, agent_lines, i);
        let h = if full <= body.height { full } else { body.height };
        if y.saturating_add(h) > bottom {
            proof {
                assert(layout_from(rows@, agent_lines@, body, width, row_gap, i as int, y) == Seq::<RowPlacement>::empty());
                assert(r@ + Seq::<RowPlacement>::empty() =~= r@);
            }
            return r;
        }
        let gap = if i + 1 >= rows.len() {
            0
        } else {
            match &rows[i] {
                AgentPanelRow::Agent { .. } => row_gap,
                _ => 0,
            }
        };
        let ghost before = r@;
        let placed = RowPlacement { row: i, rect: Rect { x: body.x, y, width, height: h } };
        r.push(placed);
        let ghost rest = layout_from(rows@, agent_lines@, body, width, row_gap, i + 1, y.saturating_add(h).saturating_add(gap));
        proof {
            assert(layout_from(rows@, agent_lines@, body, width, row_gap, i as int, y) == seq![placed] + rest);
            assert(before + (seq![placed] + rest) =~= r@ + rest);
        }
        y = y.saturating_add(h).saturating_add(gap);
        i = i + 1;
    }
    proof { assert(r@ + Seq::<RowPlacement>::empty() =~= r@); }
    r
}

} // verus!
