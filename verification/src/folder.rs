//! Folders and the top-level space order.
//!
//! A folder is a named, stable-identity container of workspaces, one level
//! deep. The space order lists folders and loose workspaces; workspaces
//! absent from the order are implicitly loose at the end.
use vstd::prelude::*;
use crate::text::{push_char, str_eq};

verus! {

/// A named container of workspaces. Identity is the stable `id`; names may repeat.
#[derive(Debug, Clone, PartialEq, Eq)]
pub struct Folder {
    pub id: String,
    /// Never empty or whitespace-only.
    pub name: String,
    pub members: Vec<String>,
}

/// One entry in the top-level space order.
#[derive(Debug, Clone, PartialEq, Eq)]
pub enum SpaceOrderEntry {
    Folder(Folder),
    Workspace(String),
}

/// The abstract value of a folder.
#[verifier::ext_equal]
pub struct FolderV {
    pub id: Seq<char>,
    pub name: Seq<char>,
    pub members: Seq<Seq<char>>,
}

/// The abstract value of a space-order entry.
#[verifier::ext_equal]
pub enum EntryV {
    Folder(FolderV),
    Workspace(Seq<char>),
}

/// The character sequences of a sequence of strings.
pub open spec fn strs(v: Seq<String>) -> Seq<Seq<char>> {
    v.map_values(|s: String| s@)
}

/// The character sequences of a sequence of string slices.
pub open spec fn ids_view(v: Seq<&str>) -> Seq<Seq<char>> {
    v.map_values(|s: &str| s@)
}

impl View for Folder {
    type V = FolderV;

    open spec fn view(&self) -> FolderV {
        FolderV { id: self.id@, name: self.name@, members: strs(self.members@) }
    }
}

impl View for SpaceOrderEntry {
    type V = EntryV;

    open spec fn view(&self) -> EntryV {
        match self {
            SpaceOrderEntry::Folder(f) => EntryV::Folder(f@),
            SpaceOrderEntry::Workspace(id) => EntryV::Workspace(id@),
        }
    }
}

/// The abstract value of a space order.
pub open spec fn entries_view(v: Seq<SpaceOrderEntry>) -> Seq<EntryV> {
    v.map_values(|e: SpaceOrderEntry| e@)
}

/// The workspace ids an entry references, in order.
pub open spec fn entry_refs(e: EntryV) -> Seq<Seq<char>> {
    match e {
        EntryV::Workspace(id) => seq![id],
        EntryV::Folder(f) => f.members,
    }
}

/// The space order flattened: every referenced workspace id, folders in place.
pub open spec fn flat(entries: Seq<EntryV>) -> Seq<Seq<char>>
    decreases entries.len(),
{
    if entries.len() == 0 {
        seq![]
    } else {
        flat(entries.drop_last()) + entry_refs(entries.last())
    }
}

/// How many times `x` occurs in `s`.
pub open spec fn count_of(s: Seq<Seq<char>>, x: Seq<char>) -> nat
    decreases s.len(),
{
    if s.len() == 0 {
        0
    } else {
        count_of(s.drop_last(), x) + if s.last() == x { 1nat } else { 0nat }
    }
}

/// The folder ids of the order, in order.
pub open spec fn folder_ids(entries: Seq<EntryV>) -> Seq<Seq<char>>
    decreases entries.len(),
{
    if entries.len() == 0 {
        seq![]
    } else {
        folder_ids(entries.drop_last()) + match entries.last() {
            EntryV::Folder(f) => seq![f.id],
            EntryV::Workspace(_) => seq![],
        }
    }
}

/// The position of the first folder with id `id`, if any.
pub open spec fn folder_index(entries: Seq<EntryV>, id: Seq<char>) -> Option<int>
    decreases entries.len(),
{
    if entries.len() == 0 {
        None
    } else {
        match folder_index(entries.drop_last(), id) {
            Some(i) => Some(i),
            None => match entries.last() {
                EntryV::Folder(f) => if f.id == id { Some(entries.len() - 1) } else { None },
                EntryV::Workspace(_) => None,
            },
        }
    }
}

/// An order in which every workspace of `ids` is referenced exactly once,
/// nothing else is referenced, and folder ids are unique.
pub open spec fn order_is_clean(entries: Seq<EntryV>, ids: Seq<Seq<char>>) -> bool {
    &&& forall|x: Seq<char>| #[trigger] count_of(flat(entries), x) == if ids.contains(x) { 1nat } else { 0nat }
    &&& folder_ids(entries).no_duplicates()
}

/// Repairs applied while normalizing a restored space order.
#[derive(Debug, Default, Clone, PartialEq, Eq)]
pub struct SpaceOrderRepairs {
    pub dangling_workspace_refs: Vec<String>,
    pub duplicate_workspace_refs: Vec<String>,
    pub merged_duplicate_folder_ids: Vec<String>,
    pub appended_missing_workspaces: Vec<String>,
}

/// The abstract value of a repair report.
#[verifier::ext_equal]
pub struct RepairsV {
    pub dangling: Seq<Seq<char>>,
    pub duplicate: Seq<Seq<char>>,
    pub merged: Seq<Seq<char>>,
    pub appended: Seq<Seq<char>>,
}

impl View for SpaceOrderRepairs {
    type V = RepairsV;

    open spec fn view(&self) -> RepairsV {
        RepairsV {
            dangling: strs(self.dangling_workspace_refs@),
            duplicate: strs(self.duplicate_workspace_refs@),
            merged: strs(self.merged_duplicate_folder_ids@),
            appended: strs(self.appended_missing_workspaces@),
        }
    }
}

/// A report with no repair in it.
pub open spec fn no_repairs() -> RepairsV {
    RepairsV { dangling: seq![], duplicate: seq![], merged: seq![], appended: seq![] }
}

/// The state of a normalization pass after some prefix of the entries.
#[verifier::ext_equal]
pub struct NormState {
    pub out: Seq<EntryV>,
    pub seen: Seq<Seq<char>>,
    pub repairs: RepairsV,
}

/// Deciding whether one workspace reference survives: unknown ids are
/// dangling, ids seen before are duplicates (the first appearance wins).
pub open spec fn keep_spec(st: NormState, known: Seq<Seq<char>>, id: Seq<char>) -> (NormState, bool) {
    if !known.contains(id) {
        (
            NormState {
                repairs: RepairsV { dangling: st.repairs.dangling.push(id), ..st.repairs },
                ..st
            },
            false,
        )
    } else if st.seen.contains(id) {
        (
            NormState {
                repairs: RepairsV { duplicate: st.repairs.duplicate.push(id), ..st.repairs },
                ..st
            },
            false,
        )
    } else {
        (NormState { seen: st.seen.push(id), ..st }, true)
    }
}

/// The surviving members of a folder, in order, with the state after them.
pub open spec fn filter_members(members: Seq<Seq<char>>, st: NormState, known: Seq<Seq<char>>) -> (Seq<Seq<char>>, NormState)
    decreases members.len(),
{
    if members.len() == 0 {
        (seq![], st)
    } else {
        let (kept, st1) = filter_members(members.drop_last(), st, known);
        let (st2, k) = keep_spec(st1, known, members.last());
        (if k { kept.push(members.last()) } else { kept }, st2)
    }
}

/// A folder's members, or nothing for a loose workspace.
pub open spec fn members_of(e: EntryV) -> Seq<Seq<char>> {
    match e {
        EntryV::Folder(f) => f.members,
        EntryV::Workspace(_) => seq![],
    }
}

/// One entry of the normalization pass. A repeated folder id merges its
/// surviving members into the first folder with that id.
pub open spec fn normalize_step(st: NormState, e: EntryV, known: Seq<Seq<char>>) -> NormState {
    match e {
        EntryV::Workspace(id) => {
            let (st1, k) = keep_spec(st, known, id);
            if k {
                NormState { out: st1.out.push(EntryV::Workspace(id)), ..st1 }
            } else {
                st1
            }
        },
        EntryV::Folder(f) => {
            let (kept, st1) = filter_members(f.members, st, known);
            match folder_index(st1.out, f.id) {
                Some(p) => {
                    let merged = if st1.repairs.merged.contains(f.id) {
                        st1.repairs.merged
                    } else {
                        st1.repairs.merged.push(f.id)
                    };
                    let existing = st1.out[p];
                    let updated = match existing {
                        EntryV::Folder(g) => EntryV::Folder(FolderV { members: g.members + kept, ..g }),
                        EntryV::Workspace(w) => EntryV::Workspace(w),
                    };
                    NormState {
                        out: st1.out.update(p, updated),
                        repairs: RepairsV { merged, ..st1.repairs },
                        ..st1
                    }
                },
                None => NormState {
                    out: st1.out.push(EntryV::Folder(FolderV { id: f.id, name: f.name, members: kept })),
                    ..st1
                },
            }
        },
    }
}

/// The normalization pass over a prefix of entries.
pub open spec fn normalize_prefix(entries: Seq<EntryV>, known: Seq<Seq<char>>) -> NormState
    decreases entries.len(),
{
    if entries.len() == 0 {
        NormState { out: seq![], seen: seq![], repairs: no_repairs() }
    } else {
        normalize_step(normalize_prefix(entries.drop_last(), known), entries.last(), known)
    }
}

/// The ids of `ids` that are not in `seen`, in order.
pub open spec fn missing_ids(ids: Seq<Seq<char>>, seen: Seq<Seq<char>>) -> Seq<Seq<char>>
    decreases ids.len(),
{
    if ids.len() == 0 {
        seq![]
    } else if seen.contains(ids.last()) {
        missing_ids(ids.drop_last(), seen)
    } else {
        missing_ids(ids.drop_last(), seen).push(ids.last())
    }
}

/// Loose entries for a sequence of workspace ids.
pub open spec fn loose_entries(ids: Seq<Seq<char>>) -> Seq<EntryV> {
    ids.map_values(|id: Seq<char>| EntryV::Workspace(id))
}

/// A space order normalized against the live workspace ids, and the repairs
/// that made it so: duplicate folder ids merge, stale and duplicate
/// workspace references drop (first wins), and missing workspaces append
/// loose at the end.
pub open spec fn normalize_spec(entries: Seq<EntryV>, ids: Seq<Seq<char>>) -> (Seq<EntryV>, RepairsV) {
    let st = normalize_prefix(entries, ids);
    let missing = missing_ids(ids, st.seen);
    (st.out + loose_entries(missing), RepairsV { appended: missing, ..st.repairs })
}

/// Whether `x` is one of the ids.
fn contains_id(ids: &[&str], x: &str) -> (r: bool)
    ensures
        r == ids_view(ids@).contains(x@),
{
    let mut i: usize = 0;
    while i < ids.len()
        invariant
            i <= ids@.len(),
            forall|k: int| 0 <= k < i ==> ids_view(ids@)[k] != x@,
        decreases ids.len() - i,
    {
        if str_eq(ids[i], x) {
            assert(ids_view(ids@)[i as int] == x@);
            return true;
        }
        i = i + 1;
    }
    false
}

/// Whether `x` is one of the string slices.
pub fn contains_string_in_strs(ids: &[&str], x: &str) -> (r: bool)
    ensures
        r == ids_view(ids@).contains(x@),
{
    contains_id(ids, x)
}

/// Whether `x` is one of the strings.
pub fn contains_string(v: &Vec<String>, x: &str) -> (r: bool)
    ensures
        r == strs(v@).contains(x@),
{
    let mut i: usize = 0;
    while i < v.len()
        invariant
            i <= v@.len(),
            forall|k: int| 0 <= k < i ==> strs(v@)[k] != x@,
        decreases v.len() - i,
    {
        if str_eq(v[i].as_str(), x) {
            assert(strs(v@)[i as int] == x@);
            return true;
        }
        i = i + 1;
    }
    false
}

/// A copy of a list of strings.
pub fn clone_strings(v: &Vec<String>) -> (r: Vec<String>)
    ensures
        strs(r@) == strs(v@),
{
    let mut r: Vec<String> = Vec::new();
    let mut i: usize = 0;
    while i < v.len()
        invariant
            i <= v@.len(),
            strs(r@) == strs(v@).take(i as int),
        decreases v.len() - i,
    {
        r.push(v[i].clone());
        assert(strs(v@).take(i + 1) == strs(v@).take(i as int).push(v@[i as int]@));
        i = i + 1;
    }
    assert(strs(v@).take(v@.len() as int) == strs(v@));
    r
}

impl SpaceOrderRepairs {
    /// A report with no repair in it.
    pub fn new() -> (r: Self)
        ensures
            r@ == no_repairs(),
    {
        let r = SpaceOrderRepairs {
            dangling_workspace_refs: Vec::new(),
            duplicate_workspace_refs: Vec::new(),
            merged_duplicate_folder_ids: Vec::new(),
            appended_missing_workspaces: Vec::new(),
        };
        assert(r@ =~= no_repairs());
        r
    }
}

/// The state of the exec pass, as a `NormState`.
pub open spec fn exec_state(out: Seq<SpaceOrderEntry>, seen: Seq<String>, repairs: RepairsV) -> NormState {
    NormState { out: entries_view(out), seen: strs(seen), repairs }
}

fn keep(
    id: &String,
    known: &[&str],
    seen: &mut Vec<String>,
    repairs: &mut SpaceOrderRepairs,
    Ghost(out): Ghost<Seq<EntryV>>,
) -> (r: bool)
    ensures
        keep_spec(NormState { out, seen: strs(old(seen)@), repairs: old(repairs)@ }, ids_view(known@), id@)
            == (NormState { out, seen: strs(final(seen)@), repairs: final(repairs)@ }, r),
{
    if !contains_id(known, id.as_str()) {
        repairs.dangling_workspace_refs.push(id.clone());
        assert(strs(repairs.dangling_workspace_refs@) == strs(old(repairs).dangling_workspace_refs@).push(id@));
        return false;
    }
    if contains_string(seen, id.as_str()) {
        repairs.duplicate_workspace_refs.push(id.clone());
        assert(strs(repairs.duplicate_workspace_refs@) == strs(old(repairs).duplicate_workspace_refs@).push(id@));
        return false;
    }
    seen.push(id.clone());
    assert(strs(seen@) == strs(old(seen)@).push(id@));
    true
}

/// A folder found in a prefix of the order stays the first one in the whole order.
proof fn lemma_folder_index_prefix(s: Seq<EntryV>, k: int, id: Seq<char>)
    requires
        0 <= k <= s.len(),
        folder_index(s.take(k), id) is Some,
    ensures
        folder_index(s, id) == folder_index(s.take(k), id),
    decreases s.len(),
{
    if k == s.len() {
        assert(s.take(k) =~= s);
    } else {
        assert(s.drop_last().take(k) =~= s.take(k));
        lemma_folder_index_prefix(s.drop_last(), k, id);
    }
}

/// The position of the first folder with the given id.
pub fn find_folder(out: &Vec<SpaceOrderEntry>, id: &str) -> (r: Option<usize>)
    ensures
        match r {
            Some(p) => p < out@.len() && folder_index(entries_view(out@), id@) == Some(p as int),
            None => folder_index(entries_view(out@), id@) is None,
        },
{
    let ghost ev = entries_view(out@);
    let mut i: usize = 0;
    while i < out.len()
        invariant
            i <= out@.len(),
            ev == entries_view(out@),
            folder_index(ev.take(i as int), id@) is None,
        decreases out.len() - i,
    {
        assert(ev.take(i + 1).drop_last() =~= ev.take(i as int));
        match &out[i] {
            SpaceOrderEntry::Folder(f) => {
                if str_eq(f.id.as_str(), id) {
                    assert(folder_index(ev.take(i + 1), id@) == Some(i as int));
                    proof {
                        lemma_folder_index_prefix(ev, i + 1, id@);
                    }
                    return Some(i);
                }
            },
            SpaceOrderEntry::Workspace(_) => {},
        }
        i = i + 1;
    }
    assert(ev.take(out@.len() as int) =~= ev);
    None
}

/// [`normalized_space_order`] plus a report of every repair applied.
pub fn normalized_space_order_with_repairs(
    entries: &[SpaceOrderEntry],
    workspace_ids: &[&str],
) -> (res: (Vec<SpaceOrderEntry>, SpaceOrderRepairs))
    ensures
        (entries_view(res.0@), res.1@) == normalize_spec(entries_view(entries@), ids_view(workspace_ids@)),
{
    let ghost known = ids_view(workspace_ids@);
    let ghost ev = entries_view(entries@);
    let mut seen: Vec<String> = Vec::new();
    let mut normalized: Vec<SpaceOrderEntry> = Vec::new();
    let mut repairs = SpaceOrderRepairs::new();
    let mut i: usize = 0;
    proof {
        assert(ev.take(0) =~= Seq::<EntryV>::empty());
        assert(strs(seen@) =~= Seq::<Seq<char>>::empty());
        assert(entries_view(normalized@) =~= Seq::<EntryV>::empty());
    }
    while i < entries.len()
        invariant
            i <= entries@.len(),
            ev == entries_view(entries@),
            known == ids_view(workspace_ids@),
            normalize_prefix(ev.take(i as int), known) == exec_state(normalized@, seen@, repairs@),
            repairs@.appended.len() == 0,
        decreases entries.len() - i,
    {
        assert(ev.take(i + 1).drop_last() =~= ev.take(i as int));
        assert(ev.take(i + 1).last() == entries@[i as int]@);
        match &entries[i] {
            SpaceOrderEntry::Workspace(id) => {
                let ghost st = exec_state(normalized@, seen@, repairs@);
                let k = keep(id, workspace_ids, &mut seen, &mut repairs, Ghost(st.out));
                if k {
                    normalized.push(SpaceOrderEntry::Workspace(id.clone()));
                    assert(entries_view(normalized@) =~= st.out.push(EntryV::Workspace(id@)));
                }
            },
            SpaceOrderEntry::Folder(folder) => {
                let ghost st0 = exec_state(normalized@, seen@, repairs@);
                let ghost fm = strs(folder.members@);
                let mut members: Vec<String> = Vec::new();
                let mut j: usize = 0;
                assert(fm.take(0) =~= Seq::<Seq<char>>::empty());
                assert(strs(members@) =~= Seq::<Seq<char>>::empty());
                while j < folder.members.len()
                    invariant
                        j <= folder.members@.len(),
                        fm == strs(folder.members@),
                        known == ids_view(workspace_ids@),
                        filter_members(fm.take(j as int), st0, known)
                            == (strs(members@), exec_state(normalized@, seen@, repairs@)),
                        entries_view(normalized@) == st0.out,
                        repairs@.appended.len() == 0,
                    decreases folder.members.len() - j,
                {
                    assert(fm.take(j + 1).drop_last() =~= fm.take(j as int));
                    assert(fm.take(j + 1).last() == folder.members@[j as int]@);
                    let ghost before = strs(members@);
                    let k = keep(&folder.members[j], workspace_ids, &mut seen, &mut repairs, Ghost(st0.out));
                    if k {
                        members.push(folder.members[j].clone());
                        assert(strs(members@) =~= before.push(folder.members@[j as int]@));
                    }
                    j = j + 1;
                }
                assert(fm.take(folder.members@.len() as int) =~= fm);
                let ghost st1 = exec_state(normalized@, seen@, repairs@);
                match find_folder(&normalized, folder.id.as_str()) {
                    Some(p) => {
                        let ghost merged_before = strs(repairs.merged_duplicate_folder_ids@);
                        if !contains_string(&repairs.merged_duplicate_folder_ids, folder.id.as_str()) {
                            repairs.merged_duplicate_folder_ids.push(folder.id.clone());
                            assert(strs(repairs.merged_duplicate_folder_ids@) =~= merged_before.push(folder.id@));
                        }
                        let updated = match &normalized[p] {
                            SpaceOrderEntry::Folder(existing) => {
                                let mut all = clone_strings(&existing.members);
                                let ghost first = strs(all@);
                                let ghost second = strs(members@);
                                all.append(&mut members);
                                assert(strs(all@) =~= first + second);
                                SpaceOrderEntry::Folder(
                                    Folder { id: existing.id.clone(), name: existing.name.clone(), members: all },
                                )
                            },
                            SpaceOrderEntry::Workspace(w) => SpaceOrderEntry::Workspace(w.clone()),
                        };
                        let ghost old_norm = normalized@;
                        normalized.set(p, updated);
                        assert(entries_view(normalized@) =~= entries_view(old_norm).update(p as int, updated@));
                    },
                    None => {
                        let ghost old_norm = normalized@;
                        let f = Folder { id: folder.id.clone(), name: folder.name.clone(), members };
                        normalized.push(SpaceOrderEntry::Folder(f));
                        assert(entries_view(normalized@) =~= entries_view(old_norm).push(
                            EntryV::Folder(FolderV { id: folder.id@, name: folder.name@, members: strs(members@) }),
                        ));
                    },
                }
            },
        }
        i = i + 1;
    }
    assert(ev.take(entries@.len() as int) =~= ev);
    let ghost st = exec_state(normalized@, seen@, repairs@);
    let mut k: usize = 0;
    assert(known.take(0) =~= Seq::<Seq<char>>::empty());
    assert(strs(repairs.appended_missing_workspaces@) =~= Seq::<Seq<char>>::empty());
    assert(repairs@ =~= (RepairsV { appended: seq![], ..st.repairs }));
    assert(st.out + loose_entries(seq![]) =~= st.out);
    while k < workspace_ids.len()
        invariant
            k <= workspace_ids@.len(),
            known == ids_view(workspace_ids@),
            st.seen == strs(seen@),
            st == normalize_prefix(ev, known),
            entries_view(normalized@) == st.out + loose_entries(missing_ids(known.take(k as int), st.seen)),
            repairs@ == (RepairsV { appended: missing_ids(known.take(k as int), st.seen), ..st.repairs }),
        decreases workspace_ids.len() - k,
    {
        assert(known.take(k + 1).drop_last() =~= known.take(k as int));
        assert(known.take(k + 1).last() == workspace_ids@[k as int]@);
        let id = workspace_ids[k];
        if !contains_string(&seen, id) {
            let ghost old_norm = normalized@;
            let ghost old_app = strs(repairs.appended_missing_workspaces@);
            repairs.appended_missing_workspaces.push(id.to_owned());
            normalized.push(SpaceOrderEntry::Workspace(id.to_owned()));
            assert(strs(repairs.appended_missing_workspaces@) =~= old_app.push(id@));
            let ghost m = missing_ids(known.take(k as int), st.seen);
            assert(loose_entries(m.push(id@)) =~= loose_entries(m).push(EntryV::Workspace(id@)));
            assert(entries_view(normalized@) =~= entries_view(old_norm).push(EntryV::Workspace(id@)));
        }
        k = k + 1;
    }
    assert(known.take(workspace_ids@.len() as int) =~= known);
    (normalized, repairs)
}

/// Normalize a space order against the live workspace ids: duplicate folder
/// ids merge, stale and duplicate workspace references drop (first wins), and
/// missing workspaces append loose at the end.
pub fn normalized_space_order(entries: &[SpaceOrderEntry], workspace_ids: &[&str]) -> (res: Vec<SpaceOrderEntry>)
    ensures
        entries_view(res@) == normalize_spec(entries_view(entries@), ids_view(workspace_ids@)).0,
{
    normalized_space_order_with_repairs(entries, workspace_ids).0
}

/// The order flattened: normalized, then every folder's members in place.
pub open spec fn canonical_spec(entries: Seq<EntryV>, ids: Seq<Seq<char>>) -> Seq<Seq<char>> {
    flat(normalize_spec(entries, ids).0)
}

/// The space order flattened, with unlisted workspaces appended at the end.
pub fn canonical_workspace_ids(entries: &[SpaceOrderEntry], workspace_ids: &[&str]) -> (res: Vec<String>)
    ensures
        strs(res@) == canonical_spec(entries_view(entries@), ids_view(workspace_ids@)),
{
    let normalized = normalized_space_order(entries, workspace_ids);
    flatten_entries(&normalized)
}

/// Every referenced workspace id, folders in place.
pub fn flatten_entries(entries: &Vec<SpaceOrderEntry>) -> (res: Vec<String>)
    ensures
        strs(res@) == flat(entries_view(entries@)),
{
    let ghost ev = entries_view(entries@);
    let mut res: Vec<String> = Vec::new();
    let mut i: usize = 0;
    assert(ev.take(0) =~= Seq::<EntryV>::empty());
    assert(strs(res@) =~= Seq::<Seq<char>>::empty());
    while i < entries.len()
        invariant
            i <= entries@.len(),
            ev == entries_view(entries@),
            strs(res@) == flat(ev.take(i as int)),
        decreases entries.len() - i,
    {
        assert(ev.take(i + 1).drop_last() =~= ev.take(i as int));
        assert(ev.take(i + 1).last() == entries@[i as int]@);
        let ghost before = strs(res@);
        match &entries[i] {
            SpaceOrderEntry::Workspace(id) => {
                res.push(id.clone());
                assert(strs(res@) =~= before + seq![id@]);
            },
            SpaceOrderEntry::Folder(folder) => {
                let mut members = clone_strings(&folder.members);
                let ghost m = strs(members@);
                res.append(&mut members);
                assert(strs(res@) =~= before + m);
            },
        }
        i = i + 1;
    }
    assert(ev.take(entries@.len() as int) =~= ev);
    res
}

/// The folder holding `w`, found by scanning the order from the front: a
/// loose reference to `w` first means it is not foldered.
pub open spec fn folder_of_spec(entries: Seq<EntryV>, w: Seq<char>) -> Option<Seq<char>>
    decreases entries.len(),
{
    if entries.len() == 0 {
        None
    } else {
        match entries[0] {
            EntryV::Workspace(id) => if id == w { None } else { folder_of_spec(entries.drop_first(), w) },
            EntryV::Folder(f) => if f.members.contains(w) {
                Some(f.id)
            } else {
                folder_of_spec(entries.drop_first(), w)
            },
        }
    }
}

/// The folder containing `workspace_id`, if any.
pub fn folder_id_of_workspace<'a>(entries: &'a [SpaceOrderEntry], workspace_id: &str) -> (res: Option<&'a str>)
    ensures
        match res {
            Some(f) => folder_of_spec(entries_view(entries@), workspace_id@) == Some(f@),
            None => folder_of_spec(entries_view(entries@), workspace_id@) is None,
        },
{
    let ghost ev = entries_view(entries@);
    let mut i: usize = 0;
    assert(ev.skip(0) =~= ev);
    while i < entries.len()
        invariant
            i <= entries@.len(),
            ev == entries_view(entries@),
            folder_of_spec(ev, workspace_id@) == folder_of_spec(ev.skip(i as int), workspace_id@),
        decreases entries.len() - i,
    {
        assert(ev.skip(i as int)[0] == entries@[i as int]@);
        assert(ev.skip(i as int).drop_first() =~= ev.skip(i + 1));
        match &entries[i] {
            SpaceOrderEntry::Workspace(id) => {
                if str_eq(id.as_str(), workspace_id) {
                    return None;
                }
            },
            SpaceOrderEntry::Folder(folder) => {
                if contains_string(&folder.members, workspace_id) {
                    return Some(folder.id.as_str());
                }
            },
        }
        i = i + 1;
    }
    None
}

/// What a normalization report asks to be logged.
#[derive(Debug, Clone, Copy, PartialEq, Eq)]
pub enum RestoreWarningKind {
    /// The restored order referenced missing spaces; the references dropped.
    DanglingRefs,
    /// The restored order listed spaces more than once; the first appearance stayed.
    DuplicateRefs,
    /// The restored order repeated folder ids; members merged into the first occurrence.
    MergedFolders,
    /// The restored order was missing spaces; they were appended loose at the end.
    AppendedMissing,
}

/// One warning about a restored space order, with the ids it concerns.
#[derive(Debug, Clone, PartialEq, Eq)]
pub struct RestoreWarning {
    pub kind: RestoreWarningKind,
    pub ids: Vec<String>,
}

/// The warnings a report calls for: one per non-empty list, in report order.
pub open spec fn restore_warnings_spec(r: RepairsV) -> Seq<(RestoreWarningKind, Seq<Seq<char>>)> {
    let a = if r.dangling.len() > 0 { seq![(RestoreWarningKind::DanglingRefs, r.dangling)] } else { seq![] };
    let b = if r.duplicate.len() > 0 { seq![(RestoreWarningKind::DuplicateRefs, r.duplicate)] } else { seq![] };
    let c = if r.merged.len() > 0 { seq![(RestoreWarningKind::MergedFolders, r.merged)] } else { seq![] };
    let d = if r.appended.len() > 0 { seq![(RestoreWarningKind::AppendedMissing, r.appended)] } else { seq![] };
    a + b + c + d
}

impl SpaceOrderRepairs {
    /// Whether no repair was applied.
    pub fn is_empty(&self) -> (r: bool)
        ensures
            r == (self@.dangling.len() == 0 && self@.duplicate.len() == 0 && self@.merged.len() == 0
                && self@.appended.len() == 0),
    {
        self.dangling_workspace_refs.is_empty() && self.duplicate_workspace_refs.is_empty()
            && self.merged_duplicate_folder_ids.is_empty() && self.appended_missing_workspaces.is_empty()
    }

    /// The warnings to log for this report: one per kind of repair that was
    /// applied, each with the ids it concerns.
    pub fn log_restore_warnings(&self) -> (r: Vec<RestoreWarning>)
        ensures
            r@.map_values(|w: RestoreWarning| (w.kind, strs(w.ids@))) == restore_warnings_spec(self@),
    {
        let mut r: Vec<RestoreWarning> = Vec::new();
        let ghost g = Seq::<(RestoreWarningKind, Seq<Seq<char>>)>::empty();
        proof {
            assert(r@.map_values(|w: RestoreWarning| (w.kind, strs(w.ids@))) =~= g);
        }
        if !self.dangling_workspace_refs.is_empty() {
            r.push(RestoreWarning { kind: RestoreWarningKind::DanglingRefs, ids: clone_strings(&self.dangling_workspace_refs) });
            proof { g = g.push((RestoreWarningKind::DanglingRefs, self@.dangling)); }
        }
        assert(r@.map_values(|w: RestoreWarning| (w.kind, strs(w.ids@))) =~= g);
        if !self.duplicate_workspace_refs.is_empty() {
            r.push(RestoreWarning { kind: RestoreWarningKind::DuplicateRefs, ids: clone_strings(&self.duplicate_workspace_refs) });
            proof { g = g.push((RestoreWarningKind::DuplicateRefs, self@.duplicate)); }
        }
        assert(r@.map_values(|w: RestoreWarning| (w.kind, strs(w.ids@))) =~= g);
        if !self.merged_duplicate_folder_ids.is_empty() {
            r.push(RestoreWarning { kind: RestoreWarningKind::MergedFolders, ids: clone_strings(&self.merged_duplicate_folder_ids) });
            proof { g = g.push((RestoreWarningKind::MergedFolders, self@.merged)); }
        }
        assert(r@.map_values(|w: RestoreWarning| (w.kind, strs(w.ids@))) =~= g);
        if !self.appended_missing_workspaces.is_empty() {
            r.push(RestoreWarning { kind: RestoreWarningKind::AppendedMissing, ids: clone_strings(&self.appended_missing_workspaces) });
            proof { g = g.push((RestoreWarningKind::AppendedMissing, self@.appended)); }
        }
        assert(r@.map_values(|w: RestoreWarning| (w.kind, strs(w.ids@))) =~= g);
        assert(g =~= restore_warnings_spec(self@));
        r
    }
}

// ---------------------------------------------------------------------------
// Folder ids: `f` followed by a base-32 public number.
// ---------------------------------------------------------------------------

/// The base-32 digit for `d` (`0-9`, then `a-v`).
pub open spec fn digit_char(d: int) -> char {
    if d < 10 { (48 + d) as char } else { (87 + d) as char }
}

/// The value of a base-32 digit, if `c` is one.
pub open spec fn digit_value(c: char) -> Option<int> {
    if '0' <= c <= '9' {
        Some(c as int - 48)
    } else if 'a' <= c <= 'v' {
        Some(c as int - 87)
    } else {
        None
    }
}

/// The base-32 digits of `n`, most significant first, without leading zeros.
pub open spec fn encode_spec(n: nat) -> Seq<char>
    decreases n,
{
    if n < 32 {
        seq![digit_char(n as int)]
    } else {
        encode_spec(n / 32).push(digit_char((n % 32) as int))
    }
}

/// The value of a string of base-32 digits, or `None` when a character is
/// not a digit or the value does not fit a `usize`.
pub open spec fn parse_digits(s: Seq<char>) -> Option<int>
    decreases s.len(),
{
    if s.len() == 0 {
        Some(0)
    } else {
        match parse_digits(s.drop_last()) {
            None => None,
            Some(v) => match digit_value(s.last()) {
                None => None,
                Some(d) => if v * 32 + d <= usize::MAX { Some(v * 32 + d) } else { None },
            },
        }
    }
}

/// The public number of a non-empty base-32 string.
pub open spec fn decode_spec(s: Seq<char>) -> Option<int> {
    if s.len() == 0 { None } else { parse_digits(s) }
}

/// The folder id for public number `n`.
pub open spec fn folder_id_spec(n: nat) -> Seq<char> {
    seq!['f'] + encode_spec(n)
}

/// The public number of a folder id: its text after the leading `f`.
pub open spec fn public_folder_number_spec(id: Seq<char>) -> Option<int> {
    if id.len() > 0 && id[0] == 'f' { decode_spec(id.drop_first()) } else { None }
}

fn digit_of(d: usize) -> (c: char)
    requires
        d < 32,
    ensures
        c == digit_char(d as int),
{
    let b = d as u8;
    if b < 10 {
        (48u8 + b) as char
    } else {
        (87u8 + b) as char
    }
}

fn value_of(c: char) -> (r: Option<usize>)
    ensures
        match digit_value(c) {
            Some(v) => r == Some(v as usize),
            None => r is None,
        },
{
    if c >= '0' && c <= '9' {
        Some((c as u32 - 48) as usize)
    } else if c >= 'a' && c <= 'v' {
        Some((c as u32 - 87) as usize)
    } else {
        None
    }
}

/// The base-32 text of `n`.
pub fn encode_public_number(n: usize) -> (r: String)
    ensures
        r@ == encode_spec(n as nat),
{
    let mut digits: Vec<char> = Vec::new();
    let mut m: usize = n;
    // Collect least significant digits first.
    while m >= 32
        invariant
            encode_spec(n as nat) == encode_spec(m as nat) + digits@.reverse(),
        decreases m,
    {
        let ghost before = digits@;
        digits.push(digit_of(m % 32));
        proof {
            assert(digits@.reverse() =~= seq![digit_char((m % 32) as int)] + before.reverse());
            assert(encode_spec(m as nat) == encode_spec((m / 32) as nat).push(digit_char((m % 32) as int)));
            assert(encode_spec((m / 32) as nat).push(digit_char((m % 32) as int)) + before.reverse()
                =~= encode_spec((m / 32) as nat) + digits@.reverse());
        }
        m = m / 32;
    }
    let mut r = String::new();
    push_char(&mut r, digit_of(m));
    let mut k: usize = digits.len();
    assert(r@ =~= encode_spec(m as nat));
    while k > 0
        invariant
            k <= digits@.len(),
            encode_spec(n as nat) == encode_spec(m as nat) + digits@.reverse(),
            r@ + digits@.take(k as int).reverse() == encode_spec(n as nat),
        decreases k,
    {
        let ghost before = r@;
        push_char(&mut r, digits[k - 1]);
        assert(digits@.take(k as int).reverse() =~= seq![digits@[k - 1]] + digits@.take(k - 1).reverse());
        assert(r@ + digits@.take(k - 1).reverse() =~= before + digits@.take(k as int).reverse());
        k = k - 1;
    }
    assert(digits@.take(0).reverse() =~= Seq::<char>::empty());
    assert(r@ + Seq::<char>::empty() =~= r@);
    r
}

/// The public number of a base-32 text, if it is one.
pub fn decode_public_number(s: &str) -> (r: Option<usize>)
    ensures
        match decode_spec(s@) {
            Some(v) => r == Some(v as usize),
            None => r is None,
        },
{
    let n = s.unicode_len();
    if n == 0 {
        return None;
    }
    let mut value: usize = 0;
    let mut i: usize = 0;
    assert(s@.take(0) =~= Seq::<char>::empty());
    while i < n
        invariant
            n == s@.len(),
            i <= n,
            parse_digits(s@.take(i as int)) == Some(value as int),
        decreases n - i,
    {
        assert(s@.take(i + 1).drop_last() =~= s@.take(i as int));
        let c = s.get_char(i);
        let d = match value_of(c) {
            Some(d) => d,
            None => {
                proof { lemma_parse_digits_none_extends(s@, i as int + 1); }
                return None;
            },
        };
        if value > (usize::MAX - d) / 32 {
            proof {
                assert(value * 32 + d > usize::MAX) by (nonlinear_arith)
                    requires value > (usize::MAX - d) / 32, d < 32;
                lemma_parse_digits_none_extends(s@, i as int + 1);
            }
            return None;
        }
        assert(value * 32 + d <= usize::MAX) by (nonlinear_arith)
            requires value <= (usize::MAX - d) / 32, d < 32;
        value = value * 32 + d;
        i = i + 1;
    }
    assert(s@.take(n as int) =~= s@);
    Some(value)
}

/// A parsed value is a `usize`.
proof fn lemma_parse_digits_range(s: Seq<char>)
    ensures
        parse_digits(s) matches Some(v) ==> 0 <= v <= usize::MAX,
    decreases s.len(),
{
    if s.len() > 0 {
        lemma_parse_digits_range(s.drop_last());
        if let Some(v) = parse_digits(s.drop_last()) {
            assert(v * 32 >= 0) by (nonlinear_arith) requires v >= 0;
        }
    }
}

/// A failed parse of a prefix fails the whole text.
proof fn lemma_parse_digits_none_extends(s: Seq<char>, k: int)
    requires
        0 <= k <= s.len(),
        parse_digits(s.take(k)) is None,
    ensures
        parse_digits(s) is None,
    decreases s.len() - k,
{
    if k < s.len() {
        assert(s.take(k + 1).drop_last() =~= s.take(k));
        lemma_parse_digits_none_extends(s, k + 1);
    } else {
        assert(s.take(k) =~= s);
    }
}

/// Decoding the encoding of a number gives the number back.
pub proof fn lemma_public_number_round_trip(n: nat)
    requires
        n <= usize::MAX,
    ensures
        decode_spec(encode_spec(n)) == Some(n as int),
    decreases n,
{
    if n < 32 {
        let s = encode_spec(n);
        assert(s.drop_last() =~= Seq::<char>::empty());
    } else {
        lemma_public_number_round_trip(n / 32);
        let s = encode_spec(n);
        assert(s.drop_last() =~= encode_spec(n / 32));
        assert(n == (n / 32) * 32 + n % 32) by (nonlinear_arith);
    }
}

/// The public number of a folder id, if it has one.
pub fn public_folder_number(id: &str) -> (r: Option<usize>)
    ensures
        match public_folder_number_spec(id@) {
            Some(v) => r == Some(v as usize),
            None => r is None,
        },
{
    let n = id.unicode_len();
    if n == 0 || id.get_char(0) != 'f' {
        return None;
    }
    let rest = id.substring_char(1, n);
    assert(rest@ =~= id@.drop_first());
    decode_public_number(rest)
}

/// The folder id for public number `n`.
pub fn folder_id_for_number(n: usize) -> (r: String)
    ensures
        r@ == folder_id_spec(n as nat),
{
    let mut r = String::new();
    push_char(&mut r, 'f');
    let digits = encode_public_number(n);
    let mut k: usize = 0;
    let m = digits.as_str().unicode_len();
    assert(r@ =~= seq!['f'] + encode_spec(n as nat).take(0));
    while k < m
        invariant
            m == digits@.len(),
            digits@ == encode_spec(n as nat),
            k <= m,
            r@ == seq!['f'] + digits@.take(k as int),
        decreases m - k,
    {
        push_char(&mut r, digits.as_str().get_char(k));
        assert(digits@.take(k + 1) =~= digits@.take(k as int).push(digits@[k as int]));
        k = k + 1;
    }
    assert(digits@.take(m as int) =~= digits@);
    r
}

/// Hands out folder ids in increasing public-number order.
pub struct FolderIdAllocator {
    pub next: u64,
}

/// The largest public number among the order's top-level folder ids.
pub open spec fn max_folder_number(entries: Seq<EntryV>) -> Option<int>
    decreases entries.len(),
{
    if entries.len() == 0 {
        None
    } else {
        let rest = max_folder_number(entries.drop_last());
        let here = match entries.last() {
            EntryV::Folder(f) => public_folder_number_spec(f.id),
            EntryV::Workspace(_) => None,
        };
        match (rest, here) {
            (Some(a), Some(b)) => Some(if a < b { b } else { a }),
            (Some(a), None) => Some(a),
            (None, b) => b,
        }
    }
}

/// The counter after reserving the numbers an order already uses: one past
/// the largest, unless that is not above the counter or does not fit.
pub open spec fn reserved_next(next: u64, entries: Seq<EntryV>) -> u64 {
    match max_folder_number(entries) {
        Some(m) => if m + 1 <= usize::MAX && m + 1 <= u64::MAX && next < m + 1 {
            (m + 1) as u64
        } else {
            next
        },
        None => next,
    }
}

impl FolderIdAllocator {
    /// A fresh allocator; the first id it hands out has public number 1.
    pub fn new() -> (r: Self)
        ensures
            r.next == 1,
    {
        FolderIdAllocator { next: 1 }
    }
}

/// A fresh folder id: `f` and the next public number, which is then used up.
pub fn generate_folder_id(ids: &mut FolderIdAllocator) -> (r: String)
    ensures
        r@ == folder_id_spec(old(ids).next as usize as nat),
        final(ids).next == old(ids).next.wrapping_add(1),
{
    let counter = ids.next;
    ids.next = ids.next.wrapping_add(1);
    folder_id_for_number(counter as usize)
}

/// The folder id for number `n` carries `n` as its public number.
pub proof fn lemma_folder_id_number(n: nat)
    requires
        n <= usize::MAX,
    ensures
        public_folder_number_spec(folder_id_spec(n)) == Some(n as int),
{
    lemma_public_number_round_trip(n);
    assert(folder_id_spec(n).drop_first() =~= encode_spec(n));
}

/// Successive generated folder ids are distinct, and their public numbers
/// increase with the counter.
pub proof fn lemma_generated_ids_increase(a: nat, b: nat)
    requires
        a < b <= usize::MAX,
    ensures
        folder_id_spec(a) != folder_id_spec(b),
        public_folder_number_spec(folder_id_spec(a)) == Some(a as int),
        public_folder_number_spec(folder_id_spec(b)) == Some(b as int),
{
    lemma_folder_id_number(a);
    lemma_folder_id_number(b);
}

/// Every top-level folder's public number is at most the largest one.
proof fn lemma_max_folder_number_bounds(entries: Seq<EntryV>, p: int)
    requires
        0 <= p < entries.len(),
    ensures
        match entries[p] {
            EntryV::Folder(f) => public_folder_number_spec(f.id) matches Some(n) ==>
                (max_folder_number(entries) matches Some(m) && n <= m),
            EntryV::Workspace(_) => true,
        },
    decreases entries.len(),
{
    if p < entries.len() - 1 {
        lemma_max_folder_number_bounds(entries.drop_last(), p);
        assert(entries.drop_last()[p] == entries[p]);
    }
}

/// After reserving the ids of a restored order, the next generated id is
/// none of the restored folder ids (when the counter and the largest
/// restored number leave room).
pub proof fn lemma_reserved_id_is_fresh(next: u64, entries: Seq<EntryV>, p: int)
    requires
        0 <= p < entries.len(),
        next <= usize::MAX,
        max_folder_number(entries) matches Some(m) ==> m + 1 <= usize::MAX && m + 1 <= u64::MAX,
    ensures
        entries[p] matches EntryV::Folder(f) ==> f.id != folder_id_spec(reserved_next(next, entries) as nat),
{
    let r = reserved_next(next, entries);
    lemma_folder_id_number(r as nat);
    lemma_max_folder_number_bounds(entries, p);
}

/// Re-seed the folder id counter after restore so no restored id is reused.
pub fn reserve_folder_ids(ids: &mut FolderIdAllocator, entries: &[SpaceOrderEntry])
    ensures
        final(ids).next == reserved_next(old(ids).next, entries_view(entries@)),
{
    let ghost ev = entries_view(entries@);
    let mut best: Option<usize> = None;
    let mut i: usize = 0;
    assert(ev.take(0) =~= Seq::<EntryV>::empty());
    while i < entries.len()
        invariant
            i <= entries@.len(),
            ev == entries_view(entries@),
            match max_folder_number(ev.take(i as int)) {
                Some(m) => best == Some(m as usize) && 0 <= m <= usize::MAX,
                None => best is None,
            },
        decreases entries.len() - i,
    {
        assert(ev.take(i + 1).drop_last() =~= ev.take(i as int));
        assert(ev.take(i + 1).last() == entries@[i as int]@);
        match &entries[i] {
            SpaceOrderEntry::Folder(folder) => {
                proof {
                    lemma_parse_digits_range(folder.id@.drop_first());
                }
                let here = public_folder_number(folder.id.as_str());
                best = match (best, here) {
                    (Some(a), Some(b)) => Some(if a < b { b } else { a }),
                    (Some(a), None) => Some(a),
                    (None, b) => b,
                };
            },
            SpaceOrderEntry::Workspace(_) => {},
        }
        i = i + 1;
    }
    assert(ev.take(entries@.len() as int) =~= ev);
    if let Some(m) = best {
        if m < usize::MAX && (m as u64) < u64::MAX {
            let candidate = (m + 1) as u64;
            if ids.next < candidate {
                ids.next = candidate;
            }
        }
    }
}

} // verus!
