//! Laws of space-order normalization.
use vstd::prelude::*;
use crate::folder::{
    count_of, entry_refs, flat, folder_ids, folder_index, keep_spec, filter_members, loose_entries, missing_ids,
    normalize_prefix, normalize_spec, normalize_step, order_is_clean, canonical_spec, no_repairs, EntryV, FolderV,
    NormState, RepairsV,
};

verus! {

pub(crate) proof fn lemma_contains_concat<A>(a: Seq<A>, b: Seq<A>, x: A)
    ensures
        (a + b).contains(x) == (a.contains(x) || b.contains(x)),
{
    if a.contains(x) {
        let i = choose|i: int| 0 <= i < a.len() && a[i] == x;
        assert((a + b)[i] == x);
    }
    if b.contains(x) {
        let i = choose|i: int| 0 <= i < b.len() && b[i] == x;
        assert((a + b)[a.len() + i] == x);
    }
    if (a + b).contains(x) {
        let i = choose|i: int| 0 <= i < (a + b).len() && (a + b)[i] == x;
        if i < a.len() {
            assert(a[i] == x);
        } else {
            assert(b[i - a.len()] == x);
        }
    }
}

proof fn lemma_count_concat(a: Seq<Seq<char>>, b: Seq<Seq<char>>, x: Seq<char>)
    ensures
        count_of(a + b, x) == count_of(a, x) + count_of(b, x),
    decreases b.len(),
{
    if b.len() == 0 {
        assert(a + b =~= a);
    } else {
        assert((a + b).drop_last() =~= a + b.drop_last());
        lemma_count_concat(a, b.drop_last(), x);
    }
}

pub proof fn lemma_count_contains(s: Seq<Seq<char>>, x: Seq<char>)
    ensures
        (count_of(s, x) > 0) == s.contains(x),
    decreases s.len(),
{
    if s.len() > 0 {
        lemma_count_contains(s.drop_last(), x);
        assert(s =~= s.drop_last() + seq![s.last()]);
        lemma_contains_concat(s.drop_last(), seq![s.last()], x);
        if seq![s.last()].contains(x) {
            let i = choose|i: int| 0 <= i < 1 && seq![s.last()][i] == x;
        }
        if s.last() == x {
            assert(seq![s.last()][0] == x);
        }
    }
}

proof fn lemma_count_single(y: Seq<char>, x: Seq<char>)
    ensures
        count_of(seq![y], x) == if y == x { 1nat } else { 0nat },
{
    assert(seq![y].drop_last() =~= Seq::<Seq<char>>::empty());
    assert(count_of(Seq::<Seq<char>>::empty(), x) == 0);
    assert(seq![y].last() == y);
}

pub(crate) proof fn lemma_flat_concat(a: Seq<EntryV>, b: Seq<EntryV>)
    ensures
        flat(a + b) == flat(a) + flat(b),
    decreases b.len(),
{
    if b.len() == 0 {
        assert(a + b =~= a);
        assert(flat(a) + flat(b) =~= flat(a));
    } else {
        assert((a + b).drop_last() =~= a + b.drop_last());
        lemma_flat_concat(a, b.drop_last());
        assert(flat(a) + flat(b.drop_last()) + entry_refs(b.last()) =~= flat(a) + flat(b));
    }
}

proof fn lemma_flat_single(e: EntryV)
    ensures
        flat(seq![e]) == entry_refs(e),
{
    assert(seq![e].drop_last() =~= Seq::<EntryV>::empty());
    assert(flat(Seq::<EntryV>::empty()) + entry_refs(e) =~= entry_refs(e));
}

pub(crate) proof fn lemma_folder_ids_concat(a: Seq<EntryV>, b: Seq<EntryV>)
    ensures
        folder_ids(a + b) == folder_ids(a) + folder_ids(b),
    decreases b.len(),
{
    if b.len() == 0 {
        assert(a + b =~= a);
        assert(folder_ids(a) + folder_ids(b) =~= folder_ids(a));
    } else {
        assert((a + b).drop_last() =~= a + b.drop_last());
        lemma_folder_ids_concat(a, b.drop_last());
        let tail = match b.last() {
            EntryV::Folder(f) => seq![f.id],
            EntryV::Workspace(_) => Seq::<Seq<char>>::empty(),
        };
        assert(folder_ids(a) + folder_ids(b.drop_last()) + tail =~= folder_ids(a) + folder_ids(b));
    }
}

/// The ids of a one-entry order.
pub open spec fn entry_folder_ids(e: EntryV) -> Seq<Seq<char>> {
    match e {
        EntryV::Folder(f) => seq![f.id],
        EntryV::Workspace(_) => seq![],
    }
}

proof fn lemma_folder_ids_single(e: EntryV)
    ensures
        folder_ids(seq![e]) == entry_folder_ids(e),
{
    assert(seq![e].drop_last() =~= Seq::<EntryV>::empty());
    assert(folder_ids(Seq::<EntryV>::empty()) + entry_folder_ids(e) =~= entry_folder_ids(e));
}

/// Splitting an order around one position.
proof fn lemma_split_at(s: Seq<EntryV>, p: int)
    requires
        0 <= p < s.len(),
    ensures
        s == s.take(p) + seq![s[p]] + s.skip(p + 1),
        flat(s) == flat(s.take(p)) + entry_refs(s[p]) + flat(s.skip(p + 1)),
        folder_ids(s) == folder_ids(s.take(p)) + entry_folder_ids(s[p]) + folder_ids(s.skip(p + 1)),
{
    assert(s =~= s.take(p) + seq![s[p]] + s.skip(p + 1));
    lemma_flat_concat(s.take(p) + seq![s[p]], s.skip(p + 1));
    lemma_flat_concat(s.take(p), seq![s[p]]);
    lemma_flat_single(s[p]);
    lemma_folder_ids_concat(s.take(p) + seq![s[p]], s.skip(p + 1));
    lemma_folder_ids_concat(s.take(p), seq![s[p]]);
    lemma_folder_ids_single(s[p]);
}

proof fn lemma_update_counts(s: Seq<EntryV>, p: int, e: EntryV, x: Seq<char>)
    requires
        0 <= p < s.len(),
    ensures
        count_of(flat(s.update(p, e)), x) + count_of(entry_refs(s[p]), x)
            == count_of(flat(s), x) + count_of(entry_refs(e), x),
        entry_folder_ids(e) == entry_folder_ids(s[p]) ==> folder_ids(s.update(p, e)) == folder_ids(s),
{
    let t = s.update(p, e);
    lemma_split_at(s, p);
    lemma_split_at(t, p);
    assert(t.take(p) =~= s.take(p));
    assert(t.skip(p + 1) =~= s.skip(p + 1));
    lemma_count_concat(flat(s.take(p)) + entry_refs(s[p]), flat(s.skip(p + 1)), x);
    lemma_count_concat(flat(s.take(p)), entry_refs(s[p]), x);
    lemma_count_concat(flat(t.take(p)) + entry_refs(e), flat(t.skip(p + 1)), x);
    lemma_count_concat(flat(t.take(p)), entry_refs(e), x);
}

proof fn lemma_push_counts(s: Seq<EntryV>, e: EntryV, x: Seq<char>)
    ensures
        count_of(flat(s.push(e)), x) == count_of(flat(s), x) + count_of(entry_refs(e), x),
        folder_ids(s.push(e)) == folder_ids(s) + entry_folder_ids(e),
{
    assert(s.push(e).drop_last() =~= s);
    lemma_count_concat(flat(s), entry_refs(e), x);
}

proof fn lemma_folder_index_found(s: Seq<EntryV>, id: Seq<char>)
    ensures
        folder_index(s, id) matches Some(p) ==> (0 <= p < s.len() && (s[p] matches EntryV::Folder(f) && f.id == id)),
        (folder_index(s, id) is None) == !folder_ids(s).contains(id),
    decreases s.len(),
{
    if s.len() > 0 {
        lemma_folder_index_found(s.drop_last(), id);
        lemma_contains_concat(folder_ids(s.drop_last()), entry_folder_ids(s.last()), id);
        if entry_folder_ids(s.last()).contains(id) {
            let i = choose|i: int| 0 <= i < entry_folder_ids(s.last()).len() && entry_folder_ids(s.last())[i] == id;
        }
        match s.last() {
            EntryV::Folder(f) => {
                if f.id == id {
                    assert(entry_folder_ids(s.last())[0] == id);
                }
            },
            EntryV::Workspace(_) => {},
        }
    }
}

proof fn lemma_no_dup_push<A>(s: Seq<A>, x: A)
    requires
        s.no_duplicates(),
        !s.contains(x),
    ensures
        s.push(x).no_duplicates(),
{
    assert forall|i: int, j: int| 0 <= i < s.push(x).len() && 0 <= j < s.push(x).len() && i != j
        implies s.push(x)[i] != s.push(x)[j] by {
        if i == s.len() {
            assert(s[j] == s.push(x)[j]);
        } else if j == s.len() {
            assert(s[i] == s.push(x)[i]);
        }
    }
}

/// What holds of a normalization pass at every prefix.
pub open spec fn pass_inv(st: NormState, known: Seq<Seq<char>>) -> bool {
    &&& forall|x: Seq<char>| #[trigger] count_of(flat(st.out), x) == if st.seen.contains(x) { 1nat } else { 0nat }
    &&& forall|x: Seq<char>| st.seen.contains(x) ==> known.contains(x)
    &&& folder_ids(st.out).no_duplicates()
}

proof fn lemma_keep_inv(st: NormState, known: Seq<Seq<char>>, id: Seq<char>)
    requires
        forall|x: Seq<char>| st.seen.contains(x) ==> known.contains(x),
    ensures
        ({
            let (st2, k) = keep_spec(st, known, id);
            &&& st2.out == st.out
            &&& forall|x: Seq<char>| st2.seen.contains(x) ==> known.contains(x)
            &&& forall|x: Seq<char>| #![trigger st2.seen.contains(x)]
                st2.seen.contains(x) == (st.seen.contains(x) || (k && x == id))
            &&& k ==> !st.seen.contains(id)
        }),
{
    let (st2, k) = keep_spec(st, known, id);
    if k {
        assert forall|x: Seq<char>| #![trigger st2.seen.contains(x)]
            st2.seen.contains(x) == (st.seen.contains(x) || x == id) by {
            lemma_contains_concat(st.seen, seq![id], x);
            assert(st.seen.push(id) =~= st.seen + seq![id]);
            if seq![id].contains(x) {
                let i = choose|i: int| 0 <= i < 1 && seq![id][i] == x;
            }
            if x == id {
                assert(seq![id][0] == x);
            }
        }
    }
}

proof fn lemma_filter_inv(members: Seq<Seq<char>>, st: NormState, known: Seq<Seq<char>>)
    requires
        forall|x: Seq<char>| st.seen.contains(x) ==> known.contains(x),
    ensures
        ({
            let (kept, st1) = filter_members(members, st, known);
            &&& st1.out == st.out
            &&& forall|x: Seq<char>| st1.seen.contains(x) ==> known.contains(x)
            &&& forall|x: Seq<char>| st.seen.contains(x) ==> st1.seen.contains(x)
            &&& forall|x: Seq<char>| #[trigger] count_of(kept, x)
                == if st1.seen.contains(x) && !st.seen.contains(x) { 1nat } else { 0nat }
        }),
    decreases members.len(),
{
    if members.len() > 0 {
        lemma_filter_inv(members.drop_last(), st, known);
        let (kept0, st0) = filter_members(members.drop_last(), st, known);
        lemma_keep_inv(st0, known, members.last());
        let (st2, k) = keep_spec(st0, known, members.last());
        let kept = if k { kept0.push(members.last()) } else { kept0 };
        assert forall|x: Seq<char>| #[trigger] count_of(kept, x)
            == if st2.seen.contains(x) && !st.seen.contains(x) { 1nat } else { 0nat } by {
            assert(st2.seen.contains(x) == (st0.seen.contains(x) || (k && x == members.last())));
            assert(count_of(kept0, x) == if st0.seen.contains(x) && !st.seen.contains(x) { 1nat } else { 0nat });
            if k {
                assert(kept.drop_last() =~= kept0);
                assert(kept.last() == members.last());
                assert(!st0.seen.contains(members.last()));
            }
        }
    }
}

pub(crate) proof fn lemma_pass_inv(entries: Seq<EntryV>, known: Seq<Seq<char>>)
    ensures
        pass_inv(normalize_prefix(entries, known), known),
    decreases entries.len(),
{
    if entries.len() == 0 {
        assert(flat(Seq::<EntryV>::empty()) =~= Seq::<Seq<char>>::empty());
        assert forall|x: Seq<char>| #[trigger] count_of(flat(Seq::<EntryV>::empty()), x) == 0 by {}
        assert(folder_ids(Seq::<EntryV>::empty()) =~= Seq::<Seq<char>>::empty());
    } else {
        lemma_pass_inv(entries.drop_last(), known);
        let st = normalize_prefix(entries.drop_last(), known);
        let e = entries.last();
        let st2 = normalize_step(st, e, known);
        match e {
            EntryV::Workspace(id) => {
                lemma_keep_inv(st, known, id);
                let (st1, k) = keep_spec(st, known, id);
                if k {
                    assert forall|x: Seq<char>| #[trigger] count_of(flat(st2.out), x)
                        == if st2.seen.contains(x) { 1nat } else { 0nat } by {
                        lemma_push_counts(st.out, EntryV::Workspace(id), x);
                        lemma_count_single(id, x);
                    }
                    lemma_push_counts(st.out, EntryV::Workspace(id), id);
                    assert(folder_ids(st.out) + entry_folder_ids(EntryV::Workspace(id)) =~= folder_ids(st.out));
                }
            },
            EntryV::Folder(f) => {
                lemma_filter_inv(f.members, st, known);
                let (kept, st1) = filter_members(f.members, st, known);
                lemma_folder_index_found(st1.out, f.id);
                match folder_index(st1.out, f.id) {
                    Some(p) => {
                        let g = match st1.out[p] {
                            EntryV::Folder(g) => g,
                            EntryV::Workspace(_) => f,
                        };
                        let updated = EntryV::Folder(FolderV { members: g.members + kept, ..g });
                        assert forall|x: Seq<char>| #[trigger] count_of(flat(st2.out), x)
                            == if st2.seen.contains(x) { 1nat } else { 0nat } by {
                            lemma_update_counts(st1.out, p, updated, x);
                            lemma_count_concat(g.members, kept, x);
                        }
                        lemma_update_counts(st1.out, p, updated, f.id);
                    },
                    None => {
                        let added = EntryV::Folder(FolderV { id: f.id, name: f.name, members: kept });
                        assert forall|x: Seq<char>| #[trigger] count_of(flat(st2.out), x)
                            == if st2.seen.contains(x) { 1nat } else { 0nat } by {
                            lemma_push_counts(st1.out, added, x);
                        }
                        lemma_push_counts(st1.out, added, f.id);
                        assert(folder_ids(st1.out) + entry_folder_ids(added) =~= folder_ids(st1.out).push(f.id));
                        lemma_no_dup_push(folder_ids(st1.out), f.id);
                    },
                }
            },
        }
    }
}

proof fn lemma_missing_counts(ids: Seq<Seq<char>>, seen: Seq<Seq<char>>, x: Seq<char>)
    requires
        ids.no_duplicates(),
    ensures
        count_of(missing_ids(ids, seen), x) == if ids.contains(x) && !seen.contains(x) { 1nat } else { 0nat },
    decreases ids.len(),
{
    if ids.len() > 0 {
        let init = ids.drop_last();
        assert(init.no_duplicates());
        lemma_missing_counts(init, seen, x);
        assert(ids =~= init + seq![ids.last()]);
        lemma_contains_concat(init, seq![ids.last()], x);
        if seq![ids.last()].contains(x) {
            let i = choose|i: int| 0 <= i < 1 && seq![ids.last()][i] == x;
        }
        if x == ids.last() {
            assert(seq![ids.last()][0] == x);
            if init.contains(x) {
                let i = choose|i: int| 0 <= i < init.len() && init[i] == x;
                assert(ids[i] == ids[ids.len() - 1]);
            }
        }
        let m = missing_ids(init, seen);
        if !seen.contains(ids.last()) {
            assert(m.push(ids.last()).drop_last() =~= m);
        }
    }
}

pub(crate) proof fn lemma_flat_loose(out: Seq<EntryV>, m: Seq<Seq<char>>)
    ensures
        flat(out + loose_entries(m)) == flat(out) + m,
        folder_ids(out + loose_entries(m)) == folder_ids(out),
    decreases m.len(),
{
    if m.len() == 0 {
        assert(out + loose_entries(m) =~= out);
        assert(flat(out) + m =~= flat(out));
    } else {
        lemma_flat_loose(out, m.drop_last());
        assert((out + loose_entries(m)).drop_last() =~= out + loose_entries(m.drop_last()));
        assert((out + loose_entries(m)).last() == EntryV::Workspace(m.last()));
        assert(flat(out) + m.drop_last() + seq![m.last()] =~= flat(out) + m);
        assert(folder_ids(out) + Seq::<Seq<char>>::empty() =~= folder_ids(out));
    }
}

/// A normalized order references every live workspace exactly once,
/// nothing else, and repeats no folder id.
pub proof fn lemma_normalized_order_is_clean(entries: Seq<EntryV>, ids: Seq<Seq<char>>)
    requires
        ids.no_duplicates(),
    ensures
        order_is_clean(normalize_spec(entries, ids).0, ids),
{
    lemma_pass_inv(entries, ids);
    let st = normalize_prefix(entries, ids);
    let m = missing_ids(ids, st.seen);
    lemma_flat_loose(st.out, m);
    assert forall|x: Seq<char>| #[trigger] count_of(flat(normalize_spec(entries, ids).0), x)
        == if ids.contains(x) { 1nat } else { 0nat } by {
        lemma_count_concat(flat(st.out), m, x);
        lemma_missing_counts(ids, st.seen, x);
    }
}

/// The flattened normalized order lists every live workspace exactly once.
pub proof fn lemma_canonical_is_permutation(entries: Seq<EntryV>, ids: Seq<Seq<char>>)
    requires
        ids.no_duplicates(),
    ensures
        forall|x: Seq<char>| #[trigger] count_of(canonical_spec(entries, ids), x)
            == if ids.contains(x) { 1nat } else { 0nat },
{
    lemma_normalized_order_is_clean(entries, ids);
}

proof fn lemma_count_push(s: Seq<Seq<char>>, y: Seq<char>, x: Seq<char>)
    ensures
        count_of(s.push(y), x) == count_of(s, x) + if y == x { 1nat } else { 0nat },
{
    assert(s.push(y).drop_last() =~= s);
}

proof fn lemma_clean_keep_all(p: Seq<Seq<char>>, m: Seq<Seq<char>>, o: Seq<EntryV>, ids: Seq<Seq<char>>)
    requires
        forall|x: Seq<char>| #[trigger] count_of(p + m, x) <= 1,
        forall|x: Seq<char>| #[trigger] count_of(m, x) > 0 ==> ids.contains(x),
    ensures
        filter_members(m, NormState { out: o, seen: p, repairs: no_repairs() }, ids)
            == (m, NormState { out: o, seen: p + m, repairs: no_repairs() }),
    decreases m.len(),
{
    let st = NormState { out: o, seen: p, repairs: no_repairs() };
    if m.len() == 0 {
        assert(p + m =~= p);
    } else {
        let init = m.drop_last();
        let y = m.last();
        assert(p + m =~= (p + init).push(y));
        assert(m =~= init.push(y));
        assert forall|x: Seq<char>| #[trigger] count_of(p + init, x) <= 1 by {
            lemma_count_push(p + init, y, x);
        }
        assert forall|x: Seq<char>| #[trigger] count_of(init, x) > 0 implies ids.contains(x) by {
            lemma_count_push(init, y, x);
        }
        lemma_clean_keep_all(p, init, o, ids);
        lemma_count_push(p + init, y, y);
        lemma_count_push(init, y, y);
        lemma_count_contains(p + init, y);
        let st1 = NormState { out: o, seen: p + init, repairs: no_repairs() };
        assert(keep_spec(st1, ids, y) == (NormState { out: o, seen: (p + init).push(y), repairs: no_repairs() }, true));
    }
}

proof fn lemma_no_dup_middle(a: Seq<Seq<char>>, y: Seq<char>, b: Seq<Seq<char>>)
    requires
        (a + seq![y] + b).no_duplicates(),
    ensures
        !a.contains(y),
{
    let s = a + seq![y] + b;
    if a.contains(y) {
        let i = choose|i: int| 0 <= i < a.len() && a[i] == y;
        assert(s[i] == s[a.len() as int]);
    }
}

proof fn lemma_missing_empty(ids: Seq<Seq<char>>, seen: Seq<Seq<char>>)
    requires
        forall|x: Seq<char>| ids.contains(x) ==> seen.contains(x),
    ensures
        missing_ids(ids, seen) == Seq::<Seq<char>>::empty(),
    decreases ids.len(),
{
    if ids.len() > 0 {
        assert(ids.contains(ids.last()) ) by { assert(ids[ids.len() - 1] == ids.last()); }
        assert forall|x: Seq<char>| ids.drop_last().contains(x) implies seen.contains(x) by {
            let i = choose|i: int| 0 <= i < ids.drop_last().len() && ids.drop_last()[i] == x;
            assert(ids[i] == x);
        }
        lemma_missing_empty(ids.drop_last(), seen);
    }
}

/// A clean order is normalized to itself with no repairs reported.
pub proof fn lemma_clean_order_is_fixed(entries: Seq<EntryV>, ids: Seq<Seq<char>>)
    requires
        order_is_clean(entries, ids),
    ensures
        normalize_spec(entries, ids) == (entries, no_repairs()),
{
    assert(refs_at_most_once(entries, ids));
    lemma_clean_prefix(entries, ids, entries.len() as int);
    assert(entries.take(entries.len() as int) =~= entries);
    let seen = flat(entries);
    assert forall|x: Seq<char>| ids.contains(x) implies seen.contains(x) by {
        lemma_count_contains(seen, x);
    }
    lemma_missing_empty(ids, seen);
    assert(entries + loose_entries(Seq::<Seq<char>>::empty()) =~= entries);
    assert((RepairsV { appended: Seq::<Seq<char>>::empty(), ..no_repairs() }) =~= no_repairs());
}

/// An order that references each workspace at most once, only workspaces
/// of `ids`, and repeats no folder id.
pub open spec fn refs_at_most_once(entries: Seq<EntryV>, ids: Seq<Seq<char>>) -> bool {
    &&& forall|x: Seq<char>| #[trigger] count_of(flat(entries), x) <= 1
    &&& forall|x: Seq<char>| #[trigger] count_of(flat(entries), x) > 0 ==> ids.contains(x)
    &&& folder_ids(entries).no_duplicates()
}

/// Normalizing such an order keeps it as it is and appends the workspaces
/// it does not list, loose, in the order of `ids`.
pub proof fn lemma_normalize_appends_missing(entries: Seq<EntryV>, ids: Seq<Seq<char>>)
    requires
        refs_at_most_once(entries, ids),
    ensures
        normalize_spec(entries, ids).0 == entries + loose_entries(missing_ids(ids, flat(entries))),
{
    lemma_clean_prefix(entries, ids, entries.len() as int);
    assert(entries.take(entries.len() as int) =~= entries);
}

proof fn lemma_clean_prefix(entries: Seq<EntryV>, ids: Seq<Seq<char>>, k: int)
    requires
        refs_at_most_once(entries, ids),
        0 <= k <= entries.len(),
    ensures
        normalize_prefix(entries.take(k), ids)
            == (NormState { out: entries.take(k), seen: flat(entries.take(k)), repairs: no_repairs() }),
    decreases k,
{
    if k == 0 {
        assert(entries.take(0) =~= Seq::<EntryV>::empty());
        assert(flat(Seq::<EntryV>::empty()) =~= Seq::<Seq<char>>::empty());
    } else {
        let j = k - 1;
        lemma_clean_prefix(entries, ids, j);
        let pre = entries.take(j);
        let e = entries[j];
        assert(entries.take(k).drop_last() =~= pre);
        assert(entries.take(k).last() == e);
        assert(entries.take(k) =~= pre.push(e));
        lemma_split_at(entries, j);
        let p = flat(pre);
        let r = entry_refs(e);
        let rest = flat(entries.skip(j + 1));
        // Every count in p + r is at most one, and every id in r is live.
        assert forall|x: Seq<char>| #[trigger] count_of(p + r, x) <= 1 by {
            lemma_count_concat(p + r, rest, x);
        }
        assert forall|x: Seq<char>| #[trigger] count_of(r, x) > 0 implies ids.contains(x) by {
            lemma_count_concat(p + r, rest, x);
            lemma_count_concat(p, r, x);
        }
        let st = NormState { out: pre, seen: p, repairs: no_repairs() };
        lemma_push_counts(pre, e, seq![]);
        assert(flat(pre.push(e)) == p + r) by {
            assert(pre.push(e).drop_last() =~= pre);
        }
        assert(normalize_prefix(entries.take(k), ids) == normalize_step(st, e, ids));
        match e {
            EntryV::Workspace(id) => {
                lemma_clean_keep_all(p, seq![id], pre, ids);
                assert(p + seq![id] =~= p.push(id));
                assert(seq![id].drop_last() =~= Seq::<Seq<char>>::empty());
                assert(seq![id].last() == id);
                assert(count_of(seq![id], id) > 0) by { lemma_count_single(id, id); }
                assert(ids.contains(id));
                lemma_count_push(p, id, id);
                lemma_count_contains(p, id);
                assert(!p.contains(id));
                assert(keep_spec(st, ids, id) == (NormState { out: pre, seen: p.push(id), repairs: no_repairs() }, true));
                assert(r =~= seq![id]);
            },
            EntryV::Folder(f) => {
                lemma_clean_keep_all(p, f.members, pre, ids);
                lemma_no_dup_middle(folder_ids(pre), f.id, folder_ids(entries.skip(j + 1)));
                lemma_folder_index_found(pre, f.id);
                assert(e == EntryV::Folder(FolderV { id: f.id, name: f.name, members: f.members }));
            },
        }
    }
}

/// Normalizing twice gives what normalizing once gives, with nothing left to repair.
pub proof fn lemma_normalize_idempotent(entries: Seq<EntryV>, ids: Seq<Seq<char>>)
    requires
        ids.no_duplicates(),
    ensures
        normalize_spec(normalize_spec(entries, ids).0, ids) == (normalize_spec(entries, ids).0, no_repairs()),
{
    lemma_normalized_order_is_clean(entries, ids);
    lemma_clean_order_is_fixed(normalize_spec(entries, ids).0, ids);
}

/// Counting over a concatenation adds up.
pub proof fn lemma_count_concat_pub(a: Seq<Seq<char>>, b: Seq<Seq<char>>, x: Seq<char>)
    ensures
        count_of(a + b, x) == count_of(a, x) + count_of(b, x),
{
    lemma_count_concat(a, b, x);
}

/// The first folder with an id is a folder with that id.
pub proof fn lemma_folder_index_found_pub(s: Seq<EntryV>, id: Seq<char>)
    ensures
        folder_index(s, id) matches Some(p) ==> (0 <= p < s.len() && (s[p] matches EntryV::Folder(f) && f.id == id)),
        (folder_index(s, id) is None) == !folder_ids(s).contains(id),
{
    lemma_folder_index_found(s, id);
}

} // verus!
