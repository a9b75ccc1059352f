//! What the folder operations keep of a space order: which folder holds
//! which workspace, how often each workspace is referenced, and which
//! folder ids there are.
use vstd::prelude::*;
use crate::coalesce::coalesce_seq;
use crate::coalesce_laws::{lemma_coalesce_keeps_sums, sum_of};
use crate::folder::{count_of, entry_refs, flat, folder_ids, folder_of_spec, loose_entries, EntryV, FolderV};
use crate::folder_laws::{lemma_folder_ids_concat, entry_folder_ids, lemma_contains_concat, lemma_count_concat_pub, lemma_count_contains, lemma_flat_concat};
use crate::state::{coalesce_entries_spec, id_fams, entry_fams, remove_block, without, Workspace};

verus! {

/// Entry `e` is the folder `fid` and holds `w`.
pub open spec fn holds_in(e: EntryV, fid: Seq<char>, w: Seq<char>) -> bool {
    e matches EntryV::Folder(g) && g.id == fid && g.members.contains(w)
}

/// Some folder `fid` of the order holds `w`.
pub open spec fn in_folder(order: Seq<EntryV>, fid: Seq<char>, w: Seq<char>) -> bool {
    exists|p: int| 0 <= p < order.len() && #[trigger] holds_in(order[p], fid, w)
}

/// A folder of a joined order holds `w` exactly when one in either part does.
pub proof fn lemma_in_folder_concat(a: Seq<EntryV>, b: Seq<EntryV>, fid: Seq<char>, w: Seq<char>)
    ensures
        in_folder(a + b, fid, w) == (in_folder(a, fid, w) || in_folder(b, fid, w)),
{
    if in_folder(a, fid, w) {
        let p = choose|p: int| 0 <= p < a.len() && #[trigger] holds_in(a[p], fid, w);
        assert((a + b)[p] == a[p]);
    }
    if in_folder(b, fid, w) {
        let p = choose|p: int| 0 <= p < b.len() && #[trigger] holds_in(b[p], fid, w);
        assert((a + b)[a.len() + p] == b[p]);
    }
    if in_folder(a + b, fid, w) {
        let p = choose|p: int| 0 <= p < (a + b).len() && #[trigger] holds_in((a + b)[p], fid, w);
        if p < a.len() {
            assert(a[p] == (a + b)[p]);
        } else {
            assert(b[p - a.len()] == (a + b)[p]);
        }
    }
}

/// A one-entry order holds `w` in folder `fid` exactly when its entry does.
pub proof fn lemma_in_folder_single(e: EntryV, fid: Seq<char>, w: Seq<char>)
    ensures
        in_folder(seq![e], fid, w) == holds_in(e, fid, w),
{
    if holds_in(e, fid, w) {
        assert(holds_in(seq![e][0], fid, w));
    }
}

/// Loose workspaces hold no workspace in any folder.
pub proof fn lemma_in_folder_loose(m: Seq<Seq<char>>, fid: Seq<char>, w: Seq<char>)
    ensures
        !in_folder(loose_entries(m), fid, w),
{
    if in_folder(loose_entries(m), fid, w) {
        let p = choose|p: int| 0 <= p < loose_entries(m).len() && #[trigger] holds_in(loose_entries(m)[p], fid, w);
    }
}

proof fn lemma_flat_first(e: Seq<EntryV>)
    requires
        e.len() > 0,
    ensures
        flat(e) == entry_refs(e[0]) + flat(e.drop_first()),
{
    assert(e =~= seq![e[0]] + e.drop_first());
    lemma_flat_concat(seq![e[0]], e.drop_first());
    assert(seq![e[0]].drop_last() =~= Seq::<EntryV>::empty());
    assert(seq![e[0]].last() == e[0]);
    assert(flat(Seq::<EntryV>::empty()) == Seq::<Seq<char>>::empty());
    assert(Seq::<Seq<char>>::empty() + entry_refs(e[0]) =~= entry_refs(e[0]));
    assert(flat(seq![e[0]]) == entry_refs(e[0]));
}

proof fn lemma_no_dup_split<A>(a: Seq<A>, b: Seq<A>)
    requires
        (a + b).no_duplicates(),
    ensures
        a.no_duplicates(),
        b.no_duplicates(),
        forall|x: A| a.contains(x) ==> !b.contains(x),
{
    assert forall|i: int, j: int| 0 <= i < a.len() && 0 <= j < a.len() && i != j implies a[i] != a[j] by {
        assert((a + b)[i] == a[i] && (a + b)[j] == a[j]);
    }
    assert forall|i: int, j: int| 0 <= i < b.len() && 0 <= j < b.len() && i != j implies b[i] != b[j] by {
        assert((a + b)[a.len() + i] == b[i] && (a + b)[a.len() + j] == b[j]);
    }
    assert forall|x: A| a.contains(x) implies !b.contains(x) by {
        let i = choose|i: int| 0 <= i < a.len() && a[i] == x;
        if b.contains(x) {
            let j = choose|j: int| 0 <= j < b.len() && b[j] == x;
            assert((a + b)[i] == (a + b)[a.len() + j]);
        }
    }
}

/// A folder holding `w` puts `w` in the flattened order.
pub proof fn lemma_in_folder_flat(order: Seq<EntryV>, fid: Seq<char>, w: Seq<char>)
    requires
        in_folder(order, fid, w),
    ensures
        flat(order).contains(w),
    decreases order.len(),
{
    lemma_flat_first(order);
    lemma_contains_concat(entry_refs(order[0]), flat(order.drop_first()), w);
    if !holds_in(order[0], fid, w) {
        let p = choose|p: int| 0 <= p < order.len() && #[trigger] holds_in(order[p], fid, w);
        assert(holds_in(order.drop_first()[p - 1], fid, w));
        lemma_in_folder_flat(order.drop_first(), fid, w);
    }
}

/// In an order that references each workspace once, the folder found for
/// `w` is exactly the folder that holds it.
pub proof fn lemma_folder_of_holds(order: Seq<EntryV>, w: Seq<char>)
    requires
        flat(order).no_duplicates(),
    ensures
        forall|fid: Seq<char>| #[trigger] in_folder(order, fid, w) ==> folder_of_spec(order, w) == Some(fid),
        folder_of_spec(order, w) matches Some(fid) ==> in_folder(order, fid, w),
    decreases order.len(),
{
    if order.len() > 0 {
        let rest = order.drop_first();
        lemma_flat_first(order);
        lemma_no_dup_split(entry_refs(order[0]), flat(rest));
        lemma_folder_of_holds(rest, w);
        assert forall|fid: Seq<char>| #[trigger] in_folder(rest, fid, w) implies in_folder(order, fid, w) by {
            let p = choose|p: int| 0 <= p < rest.len() && #[trigger] holds_in(rest[p], fid, w);
            assert(holds_in(order[p + 1], fid, w));
        }
        assert forall|fid: Seq<char>| #[trigger] in_folder(order, fid, w) implies
            (holds_in(order[0], fid, w) || in_folder(rest, fid, w)) by {
            let p = choose|p: int| 0 <= p < order.len() && #[trigger] holds_in(order[p], fid, w);
            if p > 0 {
                assert(holds_in(rest[p - 1], fid, w));
            }
        }
        if flat(rest).contains(w) {
            assert(!entry_refs(order[0]).contains(w));
        }
        assert forall|fid: Seq<char>| #[trigger] in_folder(rest, fid, w) implies !entry_refs(order[0]).contains(w) by {
            lemma_in_folder_flat(rest, fid, w);
        }
        match order[0] {
            EntryV::Workspace(id) => {
                if id == w {
                    assert(entry_refs(order[0]).contains(w)) by { assert(entry_refs(order[0])[0] == w); }
                }
            },
            EntryV::Folder(g) => {
                if g.members.contains(w) {
                    assert(holds_in(order[0], g.id, w));
                }
            },
        }
    }
}

/// Two orders that each reference every workspace once and agree on which
/// folder holds `w` give `w` the same folder.
pub proof fn lemma_same_holder(a: Seq<EntryV>, b: Seq<EntryV>, w: Seq<char>)
    requires
        flat(a).no_duplicates(),
        flat(b).no_duplicates(),
        forall|fid: Seq<char>| #[trigger] in_folder(a, fid, w) == in_folder(b, fid, w),
    ensures
        folder_of_spec(a, w) == folder_of_spec(b, w),
{
    lemma_folder_of_holds(a, w);
    lemma_folder_of_holds(b, w);
    match folder_of_spec(a, w) {
        Some(f) => {
            assert(in_folder(b, f, w));
        },
        None => {
            match folder_of_spec(b, w) {
                Some(f) => {
                    assert(in_folder(a, f, w));
                },
                None => {},
            }
        },
    }
}

/// One entry as coalescing leaves it: a folder's members gathered by family.
pub open spec fn coalesced_entry(ws: Seq<Workspace>, e: EntryV) -> EntryV {
    match e {
        EntryV::Folder(f) => EntryV::Folder(FolderV { members: coalesce_seq(f.members, id_fams(ws, f.members)), ..f }),
        EntryV::Workspace(w) => EntryV::Workspace(w),
    }
}

proof fn lemma_sum_compose<A, B>(s: Seq<A>, g: spec_fn(A) -> B, h: spec_fn(B) -> nat)
    ensures
        sum_of(s.map_values(g), h) == sum_of(s, |a: A| h(g(a))),
    decreases s.len(),
{
    if s.len() > 0 {
        lemma_sum_compose(s.drop_last(), g, h);
        assert(s.map_values(g).drop_last() =~= s.drop_last().map_values(g));
    }
}

proof fn lemma_count_as_sum(s: Seq<Seq<char>>, x: Seq<char>)
    ensures
        count_of(s, x) == sum_of(s, |a: Seq<char>| if a == x { 1nat } else { 0nat }),
    decreases s.len(),
{
    if s.len() > 0 {
        lemma_count_as_sum(s.drop_last(), x);
    }
}

proof fn lemma_flat_count_sum(e: Seq<EntryV>, x: Seq<char>)
    ensures
        count_of(flat(e), x) == sum_of(e, |v: EntryV| count_of(entry_refs(v), x)),
    decreases e.len(),
{
    if e.len() > 0 {
        lemma_flat_count_sum(e.drop_last(), x);
        lemma_count_concat_pub(flat(e.drop_last()), entry_refs(e.last()), x);
    }
}

proof fn lemma_fids_count_sum(e: Seq<EntryV>, x: Seq<char>)
    ensures
        count_of(folder_ids(e), x) == sum_of(e, |v: EntryV| count_of(entry_folder_ids(v), x)),
    decreases e.len(),
{
    if e.len() > 0 {
        lemma_fids_count_sum(e.drop_last(), x);
        lemma_count_concat_pub(folder_ids(e.drop_last()), entry_folder_ids(e.last()), x);
        assert(folder_ids(e) == folder_ids(e.drop_last()) + entry_folder_ids(e.last()));
    }
}

proof fn lemma_sum_positive<A>(s: Seq<A>, h: spec_fn(A) -> nat)
    ensures
        (sum_of(s, h) > 0) == exists|p: int| 0 <= p < s.len() && #[trigger] h(s[p]) > 0,
    decreases s.len(),
{
    if s.len() > 0 {
        lemma_sum_positive(s.drop_last(), h);
        if exists|p: int| 0 <= p < s.len() && #[trigger] h(s[p]) > 0 {
            let p = choose|p: int| 0 <= p < s.len() && #[trigger] h(s[p]) > 0;
            if p < s.len() - 1 {
                assert(h(s.drop_last()[p]) > 0);
            }
        }
        if exists|p: int| 0 <= p < s.drop_last().len() && #[trigger] h(s.drop_last()[p]) > 0 {
            let p = choose|p: int| 0 <= p < s.drop_last().len() && #[trigger] h(s.drop_last()[p]) > 0;
            assert(h(s[p]) > 0);
        }
        if h(s.last()) > 0 {
            assert(h(s[s.len() - 1]) > 0);
        }
    } else {
        assert(!exists|p: int| 0 <= p < s.len() && #[trigger] h(s[p]) > 0);
    }
}

proof fn lemma_coalesced_entry_keeps(ws: Seq<Workspace>, e: EntryV, x: Seq<char>, fid: Seq<char>)
    ensures
        count_of(entry_refs(coalesced_entry(ws, e)), x) == count_of(entry_refs(e), x),
        entry_folder_ids(coalesced_entry(ws, e)) == entry_folder_ids(e),
        holds_in(coalesced_entry(ws, e), fid, x) == holds_in(e, fid, x),
{
    match e {
        EntryV::Folder(f) => {
            let m = coalesce_seq(f.members, id_fams(ws, f.members));
            lemma_count_as_sum(m, x);
            lemma_count_as_sum(f.members, x);
            lemma_coalesce_keeps_sums(f.members, id_fams(ws, f.members), |a: Seq<char>| if a == x { 1nat } else { 0nat });
            lemma_count_contains(m, x);
            lemma_count_contains(f.members, x);
        },
        EntryV::Workspace(_) => {},
    }
}

proof fn lemma_coalesce_entries_sum(ws: Seq<Workspace>, order: Seq<EntryV>, h: spec_fn(EntryV) -> nat)
    requires
        forall|v: EntryV| #[trigger] h(coalesced_entry(ws, v)) == h(v),
    ensures
        sum_of(coalesce_entries_spec(ws, order), h) == sum_of(order, h),
{
    let fams = entry_fams(ws, order);
    let inner = |e: EntryV| coalesced_entry(ws, e);
    let c = coalesce_seq(order, fams);
    assert(coalesce_entries_spec(ws, order) =~= c.map_values(inner));
    lemma_sum_compose(c, inner, h);
    assert((|v: EntryV| h(inner(v))) =~= h);
    lemma_coalesce_keeps_sums(order, fams, h);
}

proof fn lemma_coalesce_entries_counts(ws: Seq<Workspace>, order: Seq<EntryV>, x: Seq<char>)
    ensures
        count_of(flat(coalesce_entries_spec(ws, order)), x) == count_of(flat(order), x),
        count_of(folder_ids(coalesce_entries_spec(ws, order)), x) == count_of(folder_ids(order), x),
{
    let r = coalesce_entries_spec(ws, order);
    let h = |v: EntryV| count_of(entry_refs(v), x);
    lemma_flat_count_sum(r, x);
    lemma_flat_count_sum(order, x);
    assert forall|v: EntryV| #[trigger] h(coalesced_entry(ws, v)) == h(v) by {
        lemma_coalesced_entry_keeps(ws, v, x, seq![]);
    }
    lemma_coalesce_entries_sum(ws, order, h);
    let h2 = |v: EntryV| count_of(entry_folder_ids(v), x);
    lemma_fids_count_sum(r, x);
    lemma_fids_count_sum(order, x);
    assert forall|v: EntryV| #[trigger] h2(coalesced_entry(ws, v)) == h2(v) by {
        lemma_coalesced_entry_keeps(ws, v, x, seq![]);
    }
    lemma_coalesce_entries_sum(ws, order, h2);
}

proof fn lemma_coalesce_entries_holds(ws: Seq<Workspace>, order: Seq<EntryV>, fid: Seq<char>, w: Seq<char>)
    ensures
        in_folder(coalesce_entries_spec(ws, order), fid, w) == in_folder(order, fid, w),
{
    let r = coalesce_entries_spec(ws, order);
    let h = |v: EntryV| if holds_in(v, fid, w) { 1nat } else { 0nat };
    assert forall|v: EntryV| #[trigger] h(coalesced_entry(ws, v)) == h(v) by {
        lemma_coalesced_entry_keeps(ws, v, w, fid);
    }
    lemma_coalesce_entries_sum(ws, order, h);
    lemma_sum_positive(r, h);
    lemma_sum_positive(order, h);
    if in_folder(r, fid, w) {
        let p = choose|p: int| 0 <= p < r.len() && #[trigger] holds_in(r[p], fid, w);
        assert(h(r[p]) > 0);
    }
    if in_folder(order, fid, w) {
        let p = choose|p: int| 0 <= p < order.len() && #[trigger] holds_in(order[p], fid, w);
        assert(h(order[p]) > 0);
    }
    if sum_of(r, h) > 0 {
        let p = choose|p: int| 0 <= p < r.len() && #[trigger] h(r[p]) > 0;
        assert(holds_in(r[p], fid, w));
    }
    if sum_of(order, h) > 0 {
        let p = choose|p: int| 0 <= p < order.len() && #[trigger] h(order[p]) > 0;
        assert(holds_in(order[p], fid, w));
    }
}

/// Gathering families reorders the order's entries and each folder's
/// members, and nothing else: every workspace is referenced as often as
/// before, every folder id occurs as often, and each folder holds the same
/// workspaces.
pub proof fn lemma_coalesce_entries_keeps(ws: Seq<Workspace>, order: Seq<EntryV>)
    ensures
        forall|x: Seq<char>| #[trigger] count_of(flat(coalesce_entries_spec(ws, order)), x) == count_of(flat(order), x),
        forall|x: Seq<char>| #[trigger] count_of(folder_ids(coalesce_entries_spec(ws, order)), x) == count_of(folder_ids(order), x),
        forall|fid: Seq<char>, w: Seq<char>| #[trigger] in_folder(coalesce_entries_spec(ws, order), fid, w) == in_folder(order, fid, w),
{
    assert forall|x: Seq<char>| #[trigger] count_of(flat(coalesce_entries_spec(ws, order)), x) == count_of(flat(order), x) by {
        lemma_coalesce_entries_counts(ws, order, x);
    }
    assert forall|x: Seq<char>| #[trigger] count_of(folder_ids(coalesce_entries_spec(ws, order)), x) == count_of(folder_ids(order), x) by {
        lemma_coalesce_entries_counts(ws, order, x);
    }
    assert forall|fid: Seq<char>, w: Seq<char>| #[trigger] in_folder(coalesce_entries_spec(ws, order), fid, w) == in_folder(order, fid, w) by {
        lemma_coalesce_entries_holds(ws, order, fid, w);
    }
}

pub(crate) proof fn lemma_single_parts(e: EntryV)
    ensures
        flat(seq![e]) == entry_refs(e),
        folder_ids(seq![e]) == entry_folder_ids(e),
{
    let s = seq![e];
    assert(s.drop_last() =~= Seq::<EntryV>::empty());
    assert(s.last() == e);
    assert(flat(Seq::<EntryV>::empty()) == Seq::<Seq<char>>::empty());
    assert(folder_ids(Seq::<EntryV>::empty()) == Seq::<Seq<char>>::empty());
    assert(Seq::<Seq<char>>::empty() + entry_refs(e) =~= entry_refs(e));
    assert(Seq::<Seq<char>>::empty() + entry_folder_ids(e) =~= entry_folder_ids(e));
}

/// An entry placed between two parts of an order adds its own references,
/// its own folder id and its own holdings to theirs.
pub proof fn lemma_insert_parts(a: Seq<EntryV>, e: EntryV, b: Seq<EntryV>, x: Seq<char>, fid: Seq<char>)
    ensures
        count_of(flat(a + seq![e] + b), x) == count_of(flat(a + b), x) + count_of(entry_refs(e), x),
        count_of(folder_ids(a + seq![e] + b), x) == count_of(folder_ids(a + b), x) + count_of(entry_folder_ids(e), x),
        in_folder(a + seq![e] + b, fid, x) == (in_folder(a + b, fid, x) || holds_in(e, fid, x)),
{
    lemma_single_parts(e);
    lemma_flat_concat(a, seq![e]);
    lemma_flat_concat(a + seq![e], b);
    lemma_flat_concat(a, b);
    lemma_count_concat_pub(flat(a) + entry_refs(e), flat(b), x);
    lemma_count_concat_pub(flat(a), entry_refs(e), x);
    lemma_count_concat_pub(flat(a), flat(b), x);
    lemma_folder_ids_concat(a, seq![e]);
    lemma_folder_ids_concat(a + seq![e], b);
    lemma_folder_ids_concat(a, b);
    lemma_count_concat_pub(folder_ids(a) + entry_folder_ids(e), folder_ids(b), x);
    lemma_count_concat_pub(folder_ids(a), entry_folder_ids(e), x);
    lemma_count_concat_pub(folder_ids(a), folder_ids(b), x);
    lemma_in_folder_concat(a, seq![e], fid, x);
    lemma_in_folder_concat(a + seq![e], b, fid, x);
    lemma_in_folder_concat(a, b, fid, x);
    lemma_in_folder_single(e, fid, x);
}

/// Taking the entry at `p` out and putting it back at `t` changes no
/// count and no holding.
pub proof fn lemma_move_entry_keeps(order: Seq<EntryV>, p: int, t: int, x: Seq<char>, fid: Seq<char>)
    requires
        0 <= p < order.len(),
        0 <= t < order.len(),
    ensures
        count_of(flat(order.remove(p).insert(t, order[p])), x) == count_of(flat(order), x),
        count_of(folder_ids(order.remove(p).insert(t, order[p])), x) == count_of(folder_ids(order), x),
        in_folder(order.remove(p).insert(t, order[p]), fid, x) == in_folder(order, fid, x),
{
    let e = order[p];
    let rest = order.remove(p);
    assert(order =~= order.take(p) + seq![e] + order.skip(p + 1));
    assert(rest =~= order.take(p) + order.skip(p + 1));
    lemma_insert_parts(order.take(p), e, order.skip(p + 1), x, fid);
    assert(rest.insert(t, e) =~= rest.take(t) + seq![e] + rest.skip(t));
    assert(rest =~= rest.take(t) + rest.skip(t));
    lemma_insert_parts(rest.take(t), e, rest.skip(t), x, fid);
}

/// A folder's id is among the order's folder ids.
pub proof fn lemma_folder_in_ids(order: Seq<EntryV>, p: int)
    requires
        0 <= p < order.len(),
        order[p] is Folder,
    ensures
        folder_ids(order).contains(order[p]->Folder_0.id),
    decreases order.len(),
{
    let f = order[p]->Folder_0;
    if p == order.len() - 1 {
        assert(folder_ids(order) == folder_ids(order.drop_last()) + seq![f.id]);
        assert(folder_ids(order)[folder_ids(order.drop_last()).len() as int] == f.id);
    } else {
        lemma_folder_in_ids(order.drop_last(), p);
        let pre = folder_ids(order.drop_last());
        let k = choose|k: int| 0 <= k < pre.len() && pre[k] == f.id;
        lemma_folder_ids_concat(order.drop_last(), seq![order.last()]);
        assert(order.drop_last() + seq![order.last()] =~= order);
        assert(folder_ids(order)[k] == f.id);
    }
}

/// With unique folder ids, one folder has a given id.
pub proof fn lemma_folder_id_unique(order: Seq<EntryV>, p: int, q: int)
    requires
        folder_ids(order).no_duplicates(),
        0 <= p < order.len(),
        0 <= q < order.len(),
        order[p] is Folder,
        order[q] is Folder,
        order[p]->Folder_0.id == order[q]->Folder_0.id,
    ensures
        p == q,
    decreases order.len(),
{
    let last = order.len() - 1;
    let pre = folder_ids(order.drop_last());
    lemma_folder_ids_concat(order.drop_last(), seq![order.last()]);
    assert(order.drop_last() + seq![order.last()] =~= order);
    lemma_single_parts(order.last());
    assert(folder_ids(order) == pre + entry_folder_ids(order.last()));
    assert forall|i: int, j: int| 0 <= i < pre.len() && 0 <= j < pre.len() && i != j implies pre[i] != pre[j] by {
        assert(folder_ids(order)[i] == pre[i] && folder_ids(order)[j] == pre[j]);
    }
    if p < last && q < last {
        lemma_folder_id_unique(order.drop_last(), p, q);
    } else if p != q {
        let (a, b) = if p < q { (p, q) } else { (q, p) };
        lemma_folder_in_ids(order.drop_last(), a);
        let k = choose|k: int| 0 <= k < pre.len() && pre[k] == order[a]->Folder_0.id;
        assert(folder_ids(order)[k] == folder_ids(order)[pre.len() as int]);
    }
}

proof fn lemma_count_without(ids: Seq<Seq<char>>, aff: Seq<Seq<char>>, x: Seq<char>)
    ensures
        count_of(without(ids, aff), x) == if aff.contains(x) { 0nat } else { count_of(ids, x) },
    decreases ids.len(),
{
    if ids.len() > 0 {
        lemma_count_without(ids.drop_last(), aff, x);
        let tail = if aff.contains(ids.last()) { Seq::<Seq<char>>::empty() } else { seq![ids.last()] };
        lemma_count_concat_pub(without(ids.drop_last(), aff), tail, x);
        assert(seq![ids.last()].drop_last() =~= Seq::<Seq<char>>::empty());
        assert(count_of(Seq::<Seq<char>>::empty(), x) == 0);
    }
}

/// Taking a set of workspaces out of an order drops every reference to
/// them, keeps every folder, and leaves the other workspaces where they were.
pub proof fn lemma_remove_block_keeps(order: Seq<EntryV>, aff: Seq<Seq<char>>, x: Seq<char>, fid: Seq<char>)
    ensures
        count_of(flat(remove_block(order, aff)), x) == if aff.contains(x) { 0nat } else { count_of(flat(order), x) },
        folder_ids(remove_block(order, aff)) == folder_ids(order),
        in_folder(remove_block(order, aff), fid, x) == (in_folder(order, fid, x) && !aff.contains(x)),
    decreases order.len(),
{
    if order.len() > 0 {
        let pre = order.drop_last();
        let e = order.last();
        lemma_remove_block_keeps(pre, aff, x, fid);
        let tail = match e {
            EntryV::Folder(f) => seq![EntryV::Folder(FolderV { members: without(f.members, aff), ..f })],
            EntryV::Workspace(id) => if aff.contains(id) { Seq::<EntryV>::empty() } else { seq![EntryV::Workspace(id)] },
        };
        let r = remove_block(order, aff);
        assert(r == remove_block(pre, aff) + tail);
        assert(order =~= pre + seq![e]);
        lemma_flat_concat(remove_block(pre, aff), tail);
        lemma_flat_concat(pre, seq![e]);
        lemma_count_concat_pub(flat(remove_block(pre, aff)), flat(tail), x);
        lemma_count_concat_pub(flat(pre), flat(seq![e]), x);
        lemma_folder_ids_concat(remove_block(pre, aff), tail);
        lemma_folder_ids_concat(pre, seq![e]);
        lemma_in_folder_concat(remove_block(pre, aff), tail, fid, x);
        lemma_in_folder_concat(pre, seq![e], fid, x);
        lemma_single_parts(e);
        lemma_in_folder_single(e, fid, x);
        assert(flat(Seq::<EntryV>::empty()) == Seq::<Seq<char>>::empty());
        assert(folder_ids(Seq::<EntryV>::empty()) == Seq::<Seq<char>>::empty());
        assert(count_of(Seq::<Seq<char>>::empty(), x) == 0);
        assert(!in_folder(Seq::<EntryV>::empty(), fid, x));
        match e {
            EntryV::Folder(f) => {
                let e2 = EntryV::Folder(FolderV { members: without(f.members, aff), ..f });
                lemma_single_parts(e2);
                lemma_in_folder_single(e2, fid, x);
                lemma_count_without(f.members, aff, x);
                lemma_count_contains(without(f.members, aff), x);
                lemma_count_contains(f.members, x);
            },
            EntryV::Workspace(id) => {
                if !aff.contains(id) {
                    lemma_single_parts(EntryV::Workspace(id));
                    lemma_in_folder_single(EntryV::Workspace(id), fid, x);
                }
                assert(seq![id].drop_last() =~= Seq::<Seq<char>>::empty());
                assert(entry_refs(e) == seq![id]);
            },
        }
    }
}

} // verus!
