//! Saving the per-endpoint collapse state into the client preferences:
//! one entry per endpoint with anything collapsed, in key order, each set
//! as a sorted list, and what loading it back restores.
use vstd::prelude::*;
use crate::folder::strs;
use crate::shell::{
    collapse_of, entry_key_is, first_match, lemma_first_match, loaded_map, loaded_sets, local_key,
    map_keys, pref_key_is, pref_keys, set_of, stored_sets, FolderCollapsePreferences, FolderCollapseState,
};
use crate::text::{
    lemma_str_less_irreflexive, lemma_str_less_total, lemma_str_less_transitive, sorted_strs, str_eq,
    str_less, str_lt,
};

verus! {

/// Endpoint `key`'s collapse sets in a collapse map, empty without an entry.
pub open spec fn collapse_sets(m: Seq<(String, FolderCollapseState)>, key: Seq<char>) -> (Set<Seq<char>>, Set<Seq<char>>) {
    match collapse_of(m, key) {
        Some(c) => (set_of(c.folders@), set_of(c.agent_spaces@)),
        None => (Set::empty(), Set::empty()),
    }
}

/// Nothing collapsed.
pub open spec fn no_sets(p: (Set<Seq<char>>, Set<Seq<char>>)) -> bool {
    p.0.is_empty() && p.1.is_empty()
}

/// `per` is the collapse map `m` as stored: an entry for each endpoint with
/// anything collapsed and only for those, in key order, each holding its
/// endpoint's sets as sorted lists.
pub open spec fn stores(per: Seq<(String, FolderCollapsePreferences)>, m: Seq<(String, FolderCollapseState)>) -> bool {
    &&& sorted_strs(pref_keys(per))
    &&& forall|i: int| 0 <= i < per.len() ==> {
        let e = #[trigger] per[i];
        &&& sorted_strs(strs(e.1.collapsed_folders@))
        &&& sorted_strs(strs(e.1.collapsed_agent_spaces@))
        &&& (set_of(e.1.collapsed_folders@), set_of(e.1.collapsed_agent_spaces@)) == collapse_sets(m, e.0@)
        &&& !no_sets(collapse_sets(m, e.0@))
    }
    &&& forall|k: Seq<char>| #![trigger collapse_sets(m, k)] !no_sets(collapse_sets(m, k)) ==> pref_keys(per).contains(k)
}

/// A sorted sequence stays sorted with `x` inserted where it belongs.
proof fn lemma_sorted_insert(s: Seq<Seq<char>>, p: int, x: Seq<char>)
    requires
        sorted_strs(s),
        0 <= p <= s.len(),
        forall|q: int| 0 <= q < p ==> str_less(#[trigger] s[q], x),
        p < s.len() ==> str_less(x, s[p]),
    ensures
        sorted_strs(s.insert(p, x)),
{
    let t = s.insert(p, x);
    s.insert_ensures(p, x);
    assert forall|i: int, j: int| 0 <= i < j < t.len() implies str_less(#[trigger] t[i], #[trigger] t[j]) by {
        if j < p {
            assert(t[i] == s[i] && t[j] == s[j]);
        } else if j == p {
            assert(t[i] == s[i]);
        } else if i < p {
            assert(t[i] == s[i] && t[j] == s[j - 1]);
        } else if i == p {
            assert(t[j] == s[j - 1]);
            if j - 1 > p {
                lemma_str_less_transitive(x, s[p], s[j - 1]);
            }
        } else {
            assert(t[i] == s[i - 1] && t[j] == s[j - 1]);
        }
    }
}

/// Inserting an element adds it to the set of the sequence.
proof fn lemma_insert_to_set<A>(s: Seq<A>, p: int, x: A)
    requires
        0 <= p <= s.len(),
    ensures
        s.insert(p, x).to_set() == s.to_set().insert(x),
{
    let t = s.insert(p, x);
    s.insert_ensures(p, x);
    assert forall|y: A| t.to_set().contains(y) <==> s.to_set().insert(x).contains(y) by {
        if t.contains(y) {
            let k = choose|k: int| 0 <= k < t.len() && t[k] == y;
            if k < p {
                assert(s[k] == y);
            } else if k > p {
                assert(s[k - 1] == y);
            }
        }
        if s.contains(y) {
            let k = choose|k: int| 0 <= k < s.len() && s[k] == y;
            if k < p {
                assert(t[k] == y);
            } else {
                assert(t[k + 1] == y);
            }
        }
        if y == x {
            assert(t[p] == x);
        }
    }
    assert(t.to_set() =~= s.to_set().insert(x));
}

/// The first index of the sorted `r` whose string does not sort before `x`.
fn insertion_point<V>(r: &Vec<(String, V)>, x: &str) -> (p: usize)
    ensures
        p <= r@.len(),
        forall|q: int| 0 <= q < p ==> str_less(#[trigger] r@[q].0@, x@),
        p < r@.len() ==> !str_less(r@[p as int].0@, x@),
{
    let mut p: usize = 0;
    while p < r.len() && str_lt(r[p].0.as_str(), x)
        invariant
            p <= r@.len(),
            forall|q: int| 0 <= q < p ==> str_less(#[trigger] r@[q].0@, x@),
        decreases r.len() - p,
    {
        p = p + 1;
    }
    p
}

/// The first index of the sorted `r` whose string does not sort before `x`.
fn insertion_point_str(r: &Vec<String>, x: &str) -> (p: usize)
    ensures
        p <= r@.len(),
        forall|q: int| 0 <= q < p ==> str_less(#[trigger] r@[q]@, x@),
        p < r@.len() ==> !str_less(r@[p as int]@, x@),
{
    let mut p: usize = 0;
    while p < r.len() && str_lt(r[p].as_str(), x)
        invariant
            p <= r@.len(),
            forall|q: int| 0 <= q < p ==> str_less(#[trigger] r@[q]@, x@),
        decreases r.len() - p,
    {
        p = p + 1;
    }
    p
}

/// The strings of `v`, each once, in string order.
pub fn sorted_set(v: &Vec<String>) -> (r: Vec<String>)
    ensures
        sorted_strs(strs(r@)),
        set_of(r@) == set_of(v@),
{
    let mut r: Vec<String> = Vec::new();
    let mut i: usize = 0;
    proof { assert(set_of(r@) =~= set_of(v@.take(0))); }
    while i < v.len()
        invariant
            i <= v@.len(),
            sorted_strs(strs(r@)),
            set_of(r@) == set_of(v@.take(i as int)),
        decreases v.len() - i,
    {
        let x = &v[i];
        proof {
            assert(strs(v@.take(i + 1)) =~= strs(v@.take(i as int)).push(x@));
            strs(v@.take(i as int)).lemma_push_to_set_commute(x@);
        }
        let p = insertion_point_str(&r, x.as_str());
        let ghost before = r@;
        if p < r.len() && str_eq(r[p].as_str(), x.as_str()) {
            proof {
                assert(strs(before)[p as int] == x@);
                assert(strs(before).contains(x@));
                assert(set_of(before).insert(x@) =~= set_of(before));
            }
        } else {
            proof {
                if p < before.len() {
                    lemma_str_less_total(x@, before[p as int]@);
                }
                lemma_sorted_insert(strs(before), p as int, x@);
                lemma_insert_to_set(strs(before), p as int, x@);
            }
            r.insert(p, x.clone());
            proof { assert(strs(r@) =~= strs(before).insert(p as int, x@)); }
        }
        i = i + 1;
    }
    proof { assert(v@.take(v@.len() as int) =~= v@); }
    r
}

/// Whether a collapse state holds anything.
pub open spec fn has_any(c: FolderCollapseState) -> bool {
    c.folders@.len() > 0 || c.agent_spaces@.len() > 0
}

/// The keys of the first `n` entries of `m` that hold anything.
pub open spec fn kept_keys(m: Seq<(String, FolderCollapseState)>, n: int) -> Set<Seq<char>>
    decreases n,
{
    if n <= 0 {
        Set::empty()
    } else if has_any(m[n - 1].1) {
        kept_keys(m, n - 1).insert(m[n - 1].0@)
    } else {
        kept_keys(m, n - 1)
    }
}

proof fn lemma_kept_keys_from(m: Seq<(String, FolderCollapseState)>, n: int, k: Seq<char>)
    requires
        kept_keys(m, n).contains(k),
    ensures
        exists|j: int| 0 <= j < n && #[trigger] m[j].0@ == k && has_any(m[j].1),
    decreases n,
{
    if n > 0 {
        if has_any(m[n - 1].1) && m[n - 1].0@ == k {
        } else {
            lemma_kept_keys_from(m, n - 1, k);
        }
    }
}

proof fn lemma_kept_keys_has(m: Seq<(String, FolderCollapseState)>, n: int, j: int)
    requires
        0 <= j < n,
        has_any(m[j].1),
    ensures
        kept_keys(m, n).contains(m[j].0@),
    decreases n,
{
    if j < n - 1 {
        lemma_kept_keys_has(m, n - 1, j);
    }
}

/// With unique keys, entry `i` is its key's entry.
proof fn lemma_entry_sets(m: Seq<(String, FolderCollapseState)>, i: int)
    requires
        map_keys(m).no_duplicates(),
        0 <= i < m.len(),
    ensures
        collapse_of(m, m[i].0@) == Some(m[i].1),
{
    let p = entry_key_is(m[i].0@);
    lemma_first_match(m, p);
    match first_match(m, p) {
        Some(j) => {
            assert(map_keys(m)[j] == map_keys(m)[i]);
        },
        None => {
            assert(p(m[i]));
        },
    }
}

/// The sets of a list are empty exactly when the list is.
proof fn lemma_set_of_empty_iff(v: Seq<String>)
    ensures
        set_of(v).is_empty() <==> v.len() == 0,
{
    if v.len() > 0 {
        assert(strs(v)[0] == v[0]@);
        assert(set_of(v).contains(v[0]@));
    } else {
        assert(set_of(v) =~= Set::<Seq<char>>::empty());
    }
}

/// An endpoint collapses something exactly when its entry holds anything.
proof fn lemma_no_sets(m: Seq<(String, FolderCollapseState)>, k: Seq<char>)
    ensures
        no_sets(collapse_sets(m, k)) <==> !(collapse_of(m, k) matches Some(c) && has_any(c)),
{
    match collapse_of(m, k) {
        Some(c) => {
            lemma_set_of_empty_iff(c.folders@);
            lemma_set_of_empty_iff(c.agent_spaces@);
        },
        None => {},
    }
}

impl FolderCollapseState {
    /// The collapse map as the preferences store it: an entry for each
    /// endpoint with anything collapsed, in key order, with sorted lists.
    pub fn to_preferences(map: &Vec<(String, FolderCollapseState)>) -> (r: Vec<(String, FolderCollapsePreferences)>)
        requires
            map_keys(map@).no_duplicates(),
        ensures
            stores(r@, map@),
            pref_keys(r@).no_duplicates(),
    {
        let mut r: Vec<(String, FolderCollapsePreferences)> = Vec::new();
        let mut i: usize = 0;
        proof { assert(pref_keys(r@).to_set() =~= kept_keys(map@, 0)); }
        while i < map.len()
            invariant
                i <= map@.len(),
                map_keys(map@).no_duplicates(),
                sorted_strs(pref_keys(r@)),
                pref_keys(r@).to_set() == kept_keys(map@, i as int),
                forall|q: int| 0 <= q < r@.len() ==> {
                    let e = #[trigger] r@[q];
                    &&& sorted_strs(strs(e.1.collapsed_folders@))
                    &&& sorted_strs(strs(e.1.collapsed_agent_spaces@))
                    &&& (set_of(e.1.collapsed_folders@), set_of(e.1.collapsed_agent_spaces@)) == collapse_sets(map@, e.0@)
                    &&& !no_sets(collapse_sets(map@, e.0@))
                },
            decreases map.len() - i,
        {
            let key = &map[i].0;
            let state = &map[i].1;
            proof {
                lemma_entry_sets(map@, i as int);
                lemma_no_sets(map@, key@);
            }
            if !state.is_empty() {
                let prefs = FolderCollapsePreferences {
                    collapsed_folders: sorted_set(&state.folders),
                    collapsed_agent_spaces: sorted_set(&state.agent_spaces),
                };
                let p = insertion_point(&r, key.as_str());
                let ghost before = r@;
                let ghost keys = pref_keys(before);
                proof {
                    if kept_keys(map@, i as int).contains(key@) {
                        lemma_kept_keys_from(map@, i as int, key@);
                        let j = choose|j: int| 0 <= j < i && #[trigger] map@[j].0@ == key@ && has_any(map@[j].1);
                        assert(map_keys(map@)[j] == map_keys(map@)[i as int]);
                    }
                    assert(!keys.to_set().contains(key@));
                    if p < before.len() {
                        assert(keys[p as int] == before[p as int].0@);
                        assert(keys.to_set().contains(keys[p as int]));
                        lemma_str_less_total(key@, keys[p as int]);
                    }
                    assert forall|q: int| 0 <= q < p implies str_less(#[trigger] keys[q], key@) by {
                        assert(keys[q] == before[q].0@);
                    }
                    lemma_sorted_insert(keys, p as int, key@);
                    lemma_insert_to_set(keys, p as int, key@);
                }
                r.insert(p, (key.clone(), prefs));
                proof {
                    assert(pref_keys(r@) =~= keys.insert(p as int, key@));
                    before.insert_ensures(p as int, r@[p as int]);
                    assert forall|q: int| 0 <= q < r@.len() implies {
                        let e = #[trigger] r@[q];
                        &&& sorted_strs(strs(e.1.collapsed_folders@))
                        &&& sorted_strs(strs(e.1.collapsed_agent_spaces@))
                        &&& (set_of(e.1.collapsed_folders@), set_of(e.1.collapsed_agent_spaces@)) == collapse_sets(map@, e.0@)
                        &&& !no_sets(collapse_sets(map@, e.0@))
                    } by {
                        if q < p {
                            assert(r@[q] == before[q]);
                        } else if q > p {
                            assert(r@[q] == before[q - 1]);
                        }
                    }
                }
            }
            i = i + 1;
        }
        proof {
            assert forall|k: Seq<char>| #![trigger collapse_sets(map@, k)] !no_sets(collapse_sets(map@, k)) implies pref_keys(r@).contains(k) by {
                lemma_no_sets(map@, k);
                let p = entry_key_is(k);
                lemma_first_match(map@, p);
                let j = first_match(map@, p)->0;
                lemma_kept_keys_has(map@, map@.len() as int, j);
                assert(pref_keys(r@).to_set().contains(k));
            }
            assert forall|q: int| 0 <= q < r@.len() implies {
                let e = #[trigger] r@[q];
                &&& sorted_strs(strs(e.1.collapsed_folders@))
                &&& sorted_strs(strs(e.1.collapsed_agent_spaces@))
                &&& (set_of(e.1.collapsed_folders@), set_of(e.1.collapsed_agent_spaces@)) == collapse_sets(map@, e.0@)
                &&& !no_sets(collapse_sets(map@, e.0@))
            } by {}
            lemma_sorted_no_duplicates(pref_keys(r@));
        }
        r
    }
}

/// A strictly sorted sequence holds each string once.
proof fn lemma_sorted_no_duplicates(s: Seq<Seq<char>>)
    requires
        sorted_strs(s),
    ensures
        s.no_duplicates(),
{
    assert forall|i: int, j: int| 0 <= i < s.len() && 0 <= j < s.len() && i != j implies s[i] != s[j] by {
        if s[i] == s[j] {
            lemma_str_less_irreflexive(s[i]);
            if i < j {
                assert(str_less(s[i], s[j]));
            } else {
                assert(str_less(s[j], s[i]));
            }
        }
    }
}

/// Both sets empty.
proof fn lemma_no_sets_empty(p: (Set<Seq<char>>, Set<Seq<char>>))
    requires
        no_sets(p),
    ensures
        p == (Set::<Seq<char>>::empty(), Set::<Seq<char>>::empty()),
{
    assert(p.0 =~= Set::<Seq<char>>::empty());
    assert(p.1 =~= Set::<Seq<char>>::empty());
}

/// Loading stored collapse preferences restores every endpoint's collapse
/// state: when `per` is what storing the collapse map `m` writes (and no
/// legacy lists are stored), any map that loading `per` builds gives every
/// endpoint the same collapsed folders and agent spaces as `m`.
pub proof fn lemma_collapse_preferences_round_trip(
    m: Seq<(String, FolderCollapseState)>,
    per: Seq<(String, FolderCollapsePreferences)>,
    restored: Seq<(String, FolderCollapseState)>,
)
    requires
        stores(per, m),
        loaded_map(restored, per, seq![], seq![]),
    ensures
        forall|k: Seq<char>| #[trigger] collapse_sets(restored, k) == collapse_sets(m, k),
{
    assert forall|k: Seq<char>| #[trigger] collapse_sets(restored, k) == collapse_sets(m, k) by {
        let none: Seq<String> = seq![];
        assert(set_of(none) =~= Set::<Seq<char>>::empty());
        let st = stored_sets(per, k);
        assert(st.0 + set_of(none) =~= st.0);
        assert(st.1 + set_of(none) =~= st.1);
        assert(loaded_sets(per, none, none, k) == st);
        let pk = pref_key_is(k);
        lemma_first_match(per, pk);
        match first_match(per, pk) {
            Some(i) => {
                assert(per[i].0@ == k);
            },
            None => {
                if !no_sets(collapse_sets(m, k)) {
                    assert(pref_keys(per).contains(k));
                    let i = choose|i: int| 0 <= i < pref_keys(per).len() && pref_keys(per)[i] == k;
                    assert(pk(per[i]));
                }
                lemma_no_sets_empty(collapse_sets(m, k));
            },
        }
        let ek = entry_key_is(k);
        lemma_first_match(restored, ek);
        match first_match(restored, ek) {
            Some(i) => {
                assert(restored[i].0@ == k);
            },
            None => {
                if !no_sets(loaded_sets(per, none, none, k)) {
                    assert(map_keys(restored).contains(k));
                    let i = choose|i: int| 0 <= i < map_keys(restored).len() && map_keys(restored)[i] == k;
                    assert(ek(restored[i]));
                }
                lemma_no_sets_empty(loaded_sets(per, none, none, k));
            },
        }
    }
}

} // verus!
