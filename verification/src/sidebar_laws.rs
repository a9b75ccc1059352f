//! The spaces panel draws every workspace at most once.
use vstd::prelude::*;
use crate::shell::{
    child_rows, emit_spec, first_match, grouped, in_key, index_by_id, is_parent_at, kept, key_indices, last_match,
    lemma_first_match, list_spec, members_spec, order_step_spec, order_walk, parent_of, plain_row, sidebar_spec,
    unlisted_walk, workspace_has_id, ClientShellSnapshot, ClientShellSpaceOrderEntry, ClientShellWorkspace,
    SidebarEntry, SidebarProjection, WorkspaceEntry,
};

verus! {

/// The workspace a row draws, if it is a workspace row.
pub open spec fn row_ws(e: SidebarEntry) -> Option<int> {
    match e {
        SidebarEntry::Workspace { entry, .. } => Some(entry.index as int),
        SidebarEntry::Folder { .. } => None,
    }
}

/// No two rows draw the same workspace.
pub open spec fn rows_distinct(rows: Seq<SidebarEntry>) -> bool {
    forall|i: int, j: int| 0 <= i < rows.len() && 0 <= j < rows.len() && i != j && #[trigger] row_ws(rows[i]) is Some
        ==> row_ws(rows[i]) != #[trigger] row_ws(rows[j])
}

/// Workspace `i` belongs to a family drawn grouped.
pub open spec fn grouped_at(ws: Seq<ClientShellWorkspace>, i: int) -> bool {
    ws[i].worktree matches Some(t) && grouped(ws, t.key@)
}

/// Every workspace row draws a workspace of the snapshot; rows of grouped
/// families belong to families already drawn.
spec fn rows_ok(ws: Seq<ClientShellWorkspace>, rows: Seq<SidebarEntry>, emitted: Seq<Seq<char>>) -> bool {
    &&& rows_distinct(rows)
    &&& forall|q: int| 0 <= q < rows.len() && #[trigger] row_ws(rows[q]) is Some ==> ({
        let i = row_ws(rows[q])->Some_0;
        &&& 0 <= i < ws.len()
        &&& grouped_at(ws, i) ==> emitted.contains(ws[i].worktree->Some_0.key@)
    })
}

/// Every row of a workspace outside grouped families satisfies `good`.
spec fn plain_ok(ws: Seq<ClientShellWorkspace>, rows: Seq<SidebarEntry>, good: spec_fn(int) -> bool) -> bool {
    forall|q: int| 0 <= q < rows.len() && #[trigger] row_ws(rows[q]) is Some && !grouped_at(ws, row_ws(rows[q])->Some_0)
        ==> good(row_ws(rows[q])->Some_0)
}

proof fn lemma_key_indices(ws: Seq<ClientShellWorkspace>, key: Seq<char>)
    ensures
        forall|q: int| 0 <= q < key_indices(ws, key).len() ==> 0 <= #[trigger] key_indices(ws, key)[q] < ws.len()
            && in_key(ws[key_indices(ws, key)[q]], key),
        forall|i: int| 0 <= i < ws.len() && in_key(ws[i], key) ==> #[trigger] key_indices(ws, key).contains(i),
        key_indices(ws, key).no_duplicates(),
    decreases ws.len(),
{
    if ws.len() > 0 {
        let pre = ws.drop_last();
        lemma_key_indices(pre, key);
        let k0 = key_indices(pre, key);
        assert(key_indices(ws, key) == if in_key(ws.last(), key) { k0.push(ws.len() - 1) } else { k0 });
        assert forall|q: int| 0 <= q < k0.len() implies ws[k0[q]] == pre[k0[q]] by {}
        assert forall|i: int| 0 <= i < ws.len() && in_key(ws[i], key) implies #[trigger] key_indices(ws, key).contains(i) by {
            if i < ws.len() - 1 {
                assert(pre[i] == ws[i]);
                assert(in_key(pre[i], key));
                assert(k0.contains(i));
                let q = choose|q: int| 0 <= q < k0.len() && k0[q] == i;
                assert(key_indices(ws, key)[q] == i);
            } else {
                assert(key_indices(ws, key)[k0.len() as int] == i);
            }
        }
        if in_key(ws.last(), key) {
            let k = k0.push(ws.len() - 1);
            assert forall|a: int, b: int| 0 <= a < k.len() && 0 <= b < k.len() && a != b implies k[a] != k[b] by {
                if a < k0.len() && b < k0.len() {
                } else if a < k0.len() {
                    assert(k0[a] < ws.len() - 1);
                } else {
                    assert(k0[b] < ws.len() - 1);
                }
            }
        }
    }
}

proof fn lemma_kept_props(s: Seq<int>, p: spec_fn(int) -> bool)
    ensures
        forall|q: int| 0 <= q < kept(s, p).len() ==> s.contains(#[trigger] kept(s, p)[q]) && p(kept(s, p)[q]),
        s.no_duplicates() ==> kept(s, p).no_duplicates(),
    decreases s.len(),
{
    if s.len() > 0 {
        let pre = s.drop_last();
        lemma_kept_props(pre, p);
        let k0 = kept(pre, p);
        assert forall|q: int| 0 <= q < k0.len() implies s.contains(k0[q]) by {
            let j = choose|j: int| 0 <= j < pre.len() && pre[j] == k0[q];
            assert(s[j] == k0[q]);
        }
        if p(s.last()) {
            let k = k0.push(s.last());
            assert(s.contains(s.last())) by { assert(s[s.len() - 1] == s.last()); }
            if s.no_duplicates() {
                assert(pre.no_duplicates()) by {
                    assert forall|a: int, b: int| 0 <= a < pre.len() && 0 <= b < pre.len() && a != b implies pre[a] != pre[b] by {
                        assert(s[a] == pre[a] && s[b] == pre[b]);
                    }
                }
                assert forall|a: int, b: int| 0 <= a < k.len() && 0 <= b < k.len() && a != b implies k[a] != k[b] by {
                    if a == k0.len() || b == k0.len() {
                        let c = if a == k0.len() { b } else { a };
                        let j = choose|j: int| 0 <= j < pre.len() && pre[j] == k0[c];
                        assert(s[j] == k0[c]);
                        assert(s[j] != s[s.len() - 1]);
                    }
                }
            }
        }
    }
}

proof fn lemma_distinct_concat(a: Seq<SidebarEntry>, b: Seq<SidebarEntry>)
    requires
        rows_distinct(a),
        rows_distinct(b),
        forall|i: int, j: int| 0 <= i < a.len() && 0 <= j < b.len() && row_ws(a[i]) is Some ==> row_ws(a[i]) != row_ws(b[j]),
    ensures
        rows_distinct(a + b),
{
    let c = a + b;
    assert forall|i: int, j: int| 0 <= i < c.len() && 0 <= j < c.len() && i != j && #[trigger] row_ws(c[i]) is Some
        implies row_ws(c[i]) != #[trigger] row_ws(c[j]) by {
        if i < a.len() && j < a.len() {
            assert(c[i] == a[i] && c[j] == a[j]);
        } else if i >= a.len() && j >= a.len() {
            assert(c[i] == b[i - a.len()] && c[j] == b[j - a.len()]);
        } else if i < a.len() {
            assert(c[i] == a[i] && c[j] == b[j - a.len()]);
        } else {
            assert(c[j] == a[j] && c[i] == b[i - a.len()]);
            if row_ws(c[j]) is Some {
                assert(row_ws(a[j]) != row_ws(b[i - a.len()]));
            }
        }
    }
}

/// Drawing one workspace keeps the rows distinct: a grouped family is drawn
/// once, each member once, and a workspace outside grouped families only
/// where it was not drawn before.
proof fn lemma_emit(
    snap: ClientShellSnapshot,
    cg: Seq<Seq<char>>,
    fe: bool,
    st: SidebarProjection,
    index: int,
    foldered: bool,
    good: spec_fn(int) -> bool,
)
    requires
        snap.workspaces@.len() <= usize::MAX,
        rows_ok(snap.workspaces@, st.rows, st.emitted),
        plain_ok(snap.workspaces@, st.rows, good),
        0 <= index < snap.workspaces@.len() && !grouped_at(snap.workspaces@, index) ==> good(index)
            && forall|q: int| 0 <= q < st.rows.len() ==> row_ws(#[trigger] st.rows[q]) != Some(index),
    ensures
        emit_spec(snap, cg, fe, st, index, foldered).listed == st.listed,
        rows_ok(snap.workspaces@, emit_spec(snap, cg, fe, st, index, foldered).rows, emit_spec(snap, cg, fe, st, index, foldered).emitted),
        plain_ok(snap.workspaces@, emit_spec(snap, cg, fe, st, index, foldered).rows, good),
{
    let ws = snap.workspaces@;
    let r = emit_spec(snap, cg, fe, st, index, foldered);
    if 0 <= index < ws.len() {
        if grouped_at(ws, index) {
            let key = ws[index].worktree->Some_0.key@;
            if !st.emitted.contains(key) {
                let members = key_indices(ws, key);
                lemma_key_indices(ws, key);
                let pm = |i: int| is_parent_at(ws, i);
                lemma_first_match(members, pm);
                assert(in_key(ws[index], key));
                assert(members.contains(index));
                let parent = parent_of(ws, members, index);
                assert(members.contains(parent));
                let emitted = st.emitted.push(key);
                let prow = plain_row(parent, foldered);
                let added: Seq<SidebarEntry> = if !fe && cg.contains(key) {
                    match first_match(members, |m: int| m != parent && ws[m].focused) {
                        Some(k) => seq![prow, SidebarEntry::Workspace {
                            entry: WorkspaceEntry { index: members[k] as usize, indented: true, last_child: true },
                            foldered,
                        }],
                        None => seq![prow],
                    }
                } else {
                    let children = kept(members, |m: int| m != parent);
                    seq![prow] + child_rows(children, foldered)
                };
                assert(r.rows =~= st.rows + added) by {
                    if !fe && cg.contains(key) {
                        match first_match(members, |m: int| m != parent && ws[m].focused) {
                            Some(k) => {},
                            None => {},
                        }
                    }
                }
                assert(r.emitted == emitted);
                if !fe && cg.contains(key) {
                    lemma_first_match(members, |m: int| m != parent && ws[m].focused);
                } else {
                    let children = kept(members, |m: int| m != parent);
                    lemma_kept_props(members, |m: int| m != parent);
                }
                assert forall|q: int| 0 <= q < added.len() implies #[trigger] row_ws(added[q]) is Some
                    && members.contains(row_ws(added[q])->Some_0) && (q == 0 <==> row_ws(added[q])->Some_0 == parent) by {
                    if !(!fe && cg.contains(key)) {
                        let children = kept(members, |m: int| m != parent);
                        if q > 0 {
                            assert(added[q] == child_rows(children, foldered)[q - 1]);
                            let c = children[q - 1];
                            assert(members.contains(c));
                            let t = choose|t: int| 0 <= t < members.len() && members[t] == c;
                            assert(0 <= c < ws.len());
                        }
                    } else {
                        if q > 0 {
                            let k = first_match(members, |m: int| m != parent && ws[m].focused)->Some_0;
                            assert(0 <= members[k] < ws.len());
                            assert(members.contains(members[k]));
                        }
                    }
                }
                assert(rows_distinct(added)) by {
                    assert forall|i: int, j: int| 0 <= i < added.len() && 0 <= j < added.len() && i != j && #[trigger] row_ws(added[i]) is Some
                        implies row_ws(added[i]) != #[trigger] row_ws(added[j]) by {
                        if i > 0 && j > 0 && !(!fe && cg.contains(key)) {
                            let children = kept(members, |m: int| m != parent);
                            assert(added[i] == child_rows(children, foldered)[i - 1]);
                            assert(added[j] == child_rows(children, foldered)[j - 1]);
                            assert(children[i - 1] != children[j - 1]);
                            assert(0 <= children[i - 1] < ws.len());
                            assert(0 <= children[j - 1] < ws.len());
                        }
                    }
                }
                // Old rows draw no member of the family.
                assert forall|i: int, j: int| 0 <= i < st.rows.len() && 0 <= j < added.len() && row_ws(st.rows[i]) is Some
                    implies row_ws(st.rows[i]) != row_ws(added[j]) by {
                    let a = row_ws(st.rows[i])->Some_0;
                    let b = row_ws(added[j])->Some_0;
                    if a == b {
                        let t = choose|t: int| 0 <= t < members.len() && members[t] == b;
                        assert(in_key(ws[b], key));
                        assert(grouped_at(ws, b));
                    }
                }
                lemma_distinct_concat(st.rows, added);
                let rr = st.rows + added;
                assert forall|q: int| 0 <= q < rr.len() && #[trigger] row_ws(rr[q]) is Some implies ({
                    let i = row_ws(rr[q])->Some_0;
                    &&& 0 <= i < ws.len()
                    &&& grouped_at(ws, i) ==> emitted.contains(ws[i].worktree->Some_0.key@)
                }) && (!grouped_at(ws, row_ws(rr[q])->Some_0) ==> good(row_ws(rr[q])->Some_0)) by {
                    if q >= st.rows.len() {
                        assert(rr[q] == added[q - st.rows.len()]);
                        let i = row_ws(rr[q])->Some_0;
                        let t = choose|t: int| 0 <= t < members.len() && members[t] == i;
                        assert(in_key(ws[i], key));
                        assert(emitted.contains(key)) by { assert(emitted[emitted.len() - 1] == key); }
                    } else {
                        assert(rr[q] == st.rows[q]);
                        let i = row_ws(rr[q])->Some_0;
                        if grouped_at(ws, i) {
                            let kk = ws[i].worktree->Some_0.key@;
                            let t = choose|t: int| 0 <= t < st.emitted.len() && st.emitted[t] == kk;
                            assert(emitted[t] == kk);
                        }
                    }
                }
            }
        } else {
            let added = seq![plain_row(index, foldered)];
            assert(r.rows =~= st.rows + added);
            assert(row_ws(added[0]) == Some(index));
            lemma_distinct_concat(st.rows, added);
            let rr = st.rows + added;
            assert forall|q: int| 0 <= q < rr.len() && #[trigger] row_ws(rr[q]) is Some implies ({
                let i = row_ws(rr[q])->Some_0;
                &&& 0 <= i < ws.len()
                &&& grouped_at(ws, i) ==> st.emitted.contains(ws[i].worktree->Some_0.key@)
            }) && (!grouped_at(ws, row_ws(rr[q])->Some_0) ==> good(row_ws(rr[q])->Some_0)) by {
                if q < st.rows.len() {
                    assert(rr[q] == st.rows[q]);
                }
            }
        }
    }
}

proof fn lemma_plain_weaken(ws: Seq<ClientShellWorkspace>, rows: Seq<SidebarEntry>, em: Seq<Seq<char>>, g1: spec_fn(int) -> bool, g2: spec_fn(int) -> bool)
    requires
        rows_ok(ws, rows, em),
        plain_ok(ws, rows, g1),
        forall|i: int| 0 <= i < ws.len() && #[trigger] g1(i) ==> g2(i),
    ensures
        plain_ok(ws, rows, g2),
{
}

proof fn lemma_push_header(ws: Seq<ClientShellWorkspace>, st: SidebarProjection, e: SidebarEntry, good: spec_fn(int) -> bool)
    requires
        rows_ok(ws, st.rows, st.emitted),
        plain_ok(ws, st.rows, good),
        row_ws(e) is None,
    ensures
        rows_ok(ws, st.rows.push(e), st.emitted),
        plain_ok(ws, st.rows.push(e), good),
{
    let r = st.rows.push(e);
    assert forall|q: int| 0 <= q < r.len() && #[trigger] row_ws(r[q]) is Some implies r[q] == st.rows[q] by {}
    assert forall|i: int, j: int| 0 <= i < r.len() && 0 <= j < r.len() && i != j && #[trigger] row_ws(r[i]) is Some
        implies row_ws(r[i]) != #[trigger] row_ws(r[j]) by {
        assert(r[i] == st.rows[i]);
        if j < st.rows.len() {
            assert(r[j] == st.rows[j]);
        }
    }
}

proof fn lemma_last_match_range<A>(s: Seq<A>, p: spec_fn(A) -> bool)
    ensures
        last_match(s, p) matches Some(i) ==> 0 <= i < s.len(),
    decreases s.len(),
{
    if s.len() > 0 && !p(s.last()) {
        lemma_last_match_range(s.drop_last(), p);
    }
}

/// What the projection keeps while the order is walked.
spec fn walk_ok(ws: Seq<ClientShellWorkspace>, st: SidebarProjection) -> bool {
    &&& st.listed.len() == ws.len()
    &&& rows_ok(ws, st.rows, st.emitted)
    &&& plain_ok(ws, st.rows, |i: int| st.listed[i])
}

proof fn lemma_list(snap: ClientShellSnapshot, cg: Seq<Seq<char>>, fe: bool, st: SidebarProjection, id: Seq<char>, foldered: bool, hidden: bool)
    requires
        snap.workspaces@.len() <= usize::MAX,
        walk_ok(snap.workspaces@, st),
    ensures
        walk_ok(snap.workspaces@, list_spec(snap, cg, fe, st, id, foldered, hidden)),
{
    let ws = snap.workspaces@;
    lemma_last_match_range(ws, workspace_has_id(id));
    if let Some(index) = index_by_id(snap, id) {
        if !st.listed[index] {
            let l1 = st.listed.update(index, true);
            let st1 = SidebarProjection { listed: l1, ..st };
            lemma_plain_weaken(ws, st.rows, st.emitted, |i: int| st.listed[i], |i: int| l1[i]);
            if !hidden {
                if !grouped_at(ws, index) {
                    assert forall|q: int| 0 <= q < st.rows.len() implies row_ws(#[trigger] st.rows[q]) != Some(index) by {
                        if row_ws(st.rows[q]) == Some(index) {
                            assert(st.listed[index]);
                        }
                    }
                }
                lemma_emit(snap, cg, fe, st1, index, foldered, |i: int| l1[i]);
                let r = emit_spec(snap, cg, fe, st1, index, foldered);
                assert(r.listed == l1);
                assert((|i: int| r.listed[i]) =~= (|i: int| l1[i]));
            }
        }
    }
}

proof fn lemma_members(snap: ClientShellSnapshot, cg: Seq<Seq<char>>, fe: bool, st: SidebarProjection, members: Seq<Seq<char>>, hidden: bool)
    requires
        snap.workspaces@.len() <= usize::MAX,
        walk_ok(snap.workspaces@, st),
    ensures
        walk_ok(snap.workspaces@, members_spec(snap, cg, fe, st, members, hidden)),
    decreases members.len(),
{
    if members.len() > 0 {
        lemma_members(snap, cg, fe, st, members.drop_last(), hidden);
        let st1 = members_spec(snap, cg, fe, st, members.drop_last(), hidden);
        lemma_list(snap, cg, fe, st1, members.last(), true, hidden);
    }
}

proof fn lemma_order_walk(snap: ClientShellSnapshot, cg: Seq<Seq<char>>, cf: Seq<Seq<char>>, fe: bool, st: SidebarProjection, order: Seq<ClientShellSpaceOrderEntry>)
    requires
        snap.workspaces@.len() <= usize::MAX,
        walk_ok(snap.workspaces@, st),
    ensures
        walk_ok(snap.workspaces@, order_walk(snap, cg, cf, fe, st, order)),
    decreases order.len(),
{
    if order.len() > 0 {
        lemma_order_walk(snap, cg, cf, fe, st, order.drop_last());
        let st1 = order_walk(snap, cg, cf, fe, st, order.drop_last());
        match order.last() {
            ClientShellSpaceOrderEntry::Workspace(id) => {
                lemma_list(snap, cg, fe, st1, id@, false, false);
            },
            ClientShellSpaceOrderEntry::Folder(fid) => {
                if let Some(fi) = crate::shell::folder_pos(snap, fid@) {
                    let h = SidebarEntry::Folder { folder_index: fi as usize };
                    lemma_push_header(snap.workspaces@, st1, h, |i: int| st1.listed[i]);
                    let st2 = SidebarProjection { rows: st1.rows.push(h), ..st1 };
                    assert((|i: int| st2.listed[i]) =~= (|i: int| st1.listed[i]));
                    lemma_members(snap, cg, fe, st2, crate::folder::strs(snap.folders@[fi].members@), !fe && cf.contains(fid@));
                }
            },
            ClientShellSpaceOrderEntry::Unknown => {},
        }
    }
}

proof fn lemma_unlisted(snap: ClientShellSnapshot, cg: Seq<Seq<char>>, fe: bool, st: SidebarProjection, listed: Seq<bool>, m: int)
    requires
        snap.workspaces@.len() <= usize::MAX,
        0 <= m <= snap.workspaces@.len(),
        listed.len() == snap.workspaces@.len(),
        rows_ok(snap.workspaces@, st.rows, st.emitted),
        plain_ok(snap.workspaces@, st.rows, |i: int| listed[i]),
    ensures
        rows_ok(snap.workspaces@, unlisted_walk(snap, cg, fe, st, listed, m).rows, unlisted_walk(snap, cg, fe, st, listed, m).emitted),
        plain_ok(snap.workspaces@, unlisted_walk(snap, cg, fe, st, listed, m).rows, |i: int| listed[i] || i < m),
    decreases m,
{
    let ws = snap.workspaces@;
    if m > 0 {
        lemma_unlisted(snap, cg, fe, st, listed, m - 1);
        let st1 = unlisted_walk(snap, cg, fe, st, listed, m - 1);
        lemma_plain_weaken(ws, st1.rows, st1.emitted, |i: int| listed[i] || i < m - 1, |i: int| listed[i] || i < m);
        if !listed[m - 1] {
            if !grouped_at(ws, m - 1) {
                assert forall|q: int| 0 <= q < st1.rows.len() implies row_ws(#[trigger] st1.rows[q]) != Some(m - 1) by {
                    if row_ws(st1.rows[q]) == Some(m - 1) {
                        assert(listed[m - 1] || m - 1 < m - 1);
                    }
                }
            }
            lemma_emit(snap, cg, fe, st1, m - 1, false, |i: int| listed[i] || i < m);
        }
    } else {
        lemma_plain_weaken(ws, st.rows, st.emitted, |i: int| listed[i], |i: int| listed[i] || i < m);
    }
}

/// The spaces panel draws each workspace at most once: with folders, a
/// worktree family is drawn once, at its first member, and a collapsed
/// family shows its parent and at most one other member; without folders
/// the flat listing is shown as given.
pub proof fn lemma_sidebar_rows_distinct(
    snap: ClientShellSnapshot,
    cg: Seq<Seq<char>>,
    cf: Seq<Seq<char>>,
    fe: bool,
    flat: Seq<WorkspaceEntry>,
)
    requires
        snap.workspaces@.len() <= usize::MAX,
    ensures
        snap.folders@.len() > 0 ==> rows_distinct(sidebar_spec(snap, cg, cf, fe, flat)),
        snap.folders@.len() > 0 ==> forall|q: int| 0 <= q < sidebar_spec(snap, cg, cf, fe, flat).len()
            && #[trigger] row_ws(sidebar_spec(snap, cg, cf, fe, flat)[q]) is Some
            ==> 0 <= row_ws(sidebar_spec(snap, cg, cf, fe, flat)[q])->Some_0 < snap.workspaces@.len(),
{
    if snap.folders@.len() > 0 {
        let ws = snap.workspaces@;
        let start = SidebarProjection { rows: seq![], emitted: seq![], listed: Seq::new(ws.len(), |i: int| false) };
        assert(walk_ok(ws, start));
        lemma_order_walk(snap, cg, cf, fe, start, snap.space_order@);
        let st = order_walk(snap, cg, cf, fe, start, snap.space_order@);
        assert((|i: int| st.listed[i]) =~= (|i: int| st.listed[i]));
        lemma_unlisted(snap, cg, fe, st, st.listed, ws.len() as int);
    }
}

} // verus!
