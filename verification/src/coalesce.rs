//! Gathering worktree families into contiguous, parent-first blocks.
use vstd::prelude::*;
use crate::text::str_eq;

verus! {

/// The abstract family of one item: its family key and whether it is the
/// family's parent checkout; `None` for items outside any family.
pub open spec fn fam_view(f: Option<(String, bool)>) -> Option<(Seq<char>, bool)> {
    match f {
        Some((k, p)) => Some((k@, p)),
        None => None,
    }
}

/// The abstract families of a sequence of items.
pub open spec fn fams_view(v: Seq<Option<(String, bool)>>) -> Seq<Option<(Seq<char>, bool)>> {
    v.map_values(|f: Option<(String, bool)>| fam_view(f))
}

/// Whether two families share a key.
pub open spec fn same_key(a: Option<(Seq<char>, bool)>, b: Option<(Seq<char>, bool)>) -> bool {
    match (a, b) {
        (Some((x, _)), Some((y, _))) => x == y,
        _ => false,
    }
}

/// The indices in `[lo, hi)` whose family is exactly `(key, parent)`, in order.
pub open spec fn family_members(fams: Seq<Option<(Seq<char>, bool)>>, key: Seq<char>, parent: bool, lo: int, hi: int) -> Seq<int>
    decreases hi - lo,
{
    if hi <= lo {
        seq![]
    } else {
        family_members(fams, key, parent, lo, hi - 1) + if fams[hi - 1] == Some((key, parent)) {
            seq![hi - 1]
        } else {
            seq![]
        }
    }
}

/// Whether item `i` is the first of its family.
pub open spec fn first_of_family(fams: Seq<Option<(Seq<char>, bool)>>, i: int) -> bool {
    &&& fams[i] is Some
    &&& forall|m: int| 0 <= m < i ==> !same_key(#[trigger] fams[m], fams[i])
}

/// The block emitted at item `i`: a family-less item stands alone; the first
/// member of a family brings the whole family, parents first; later members
/// were already placed.
pub open spec fn block(fams: Seq<Option<(Seq<char>, bool)>>, i: int) -> Seq<int> {
    match fams[i] {
        None => seq![i],
        Some((k, _)) => if first_of_family(fams, i) {
            family_members(fams, k, true, i, fams.len() as int) + family_members(fams, k, false, i, fams.len() as int)
        } else {
            seq![]
        },
    }
}

/// The coalesced order of the first `m` items' blocks.
pub open spec fn coalesce_order(fams: Seq<Option<(Seq<char>, bool)>>, m: int) -> Seq<int>
    decreases m,
{
    if m <= 0 {
        seq![]
    } else {
        coalesce_order(fams, m - 1) + block(fams, m - 1)
    }
}

/// Items reordered so each worktree family forms one block at its first
/// member's position, parent first.
pub open spec fn coalesce_seq<T>(items: Seq<T>, fams: Seq<Option<(Seq<char>, bool)>>) -> Seq<T> {
    coalesce_order(fams, fams.len() as int).map_values(|i: int| items[i])
}

proof fn lemma_family_members_range(fams: Seq<Option<(Seq<char>, bool)>>, key: Seq<char>, parent: bool, lo: int, hi: int)
    ensures
        forall|k: int| 0 <= k < family_members(fams, key, parent, lo, hi).len()
            ==> lo <= #[trigger] family_members(fams, key, parent, lo, hi)[k] < hi,
    decreases hi - lo,
{
    if hi > lo {
        lemma_family_members_range(fams, key, parent, lo, hi - 1);
        let prev = family_members(fams, key, parent, lo, hi - 1);
        let tail = if fams[hi - 1] == Some((key, parent)) { seq![hi - 1] } else { Seq::<int>::empty() };
        assert forall|k: int| 0 <= k < (prev + tail).len() implies lo <= #[trigger] (prev + tail)[k] < hi by {
            if k < prev.len() {
                assert((prev + tail)[k] == prev[k]);
            } else {
                assert((prev + tail)[k] == tail[k - prev.len()]);
            }
        }
    }
}

/// Every index of the coalesced order names an item.
pub proof fn lemma_coalesce_order_range(fams: Seq<Option<(Seq<char>, bool)>>, m: int)
    requires
        m <= fams.len(),
    ensures
        forall|k: int| 0 <= k < coalesce_order(fams, m).len() ==> 0 <= #[trigger] coalesce_order(fams, m)[k] < fams.len(),
    decreases m,
{
    if m > 0 {
        lemma_coalesce_order_range(fams, m - 1);
        let i = m - 1;
        let prev = coalesce_order(fams, m - 1);
        let b = block(fams, i);
        match fams[i] {
            Some((key, _)) => {
                lemma_family_members_range(fams, key, true, i, fams.len() as int);
                lemma_family_members_range(fams, key, false, i, fams.len() as int);
                let p1 = family_members(fams, key, true, i, fams.len() as int);
                let p2 = family_members(fams, key, false, i, fams.len() as int);
                assert forall|k: int| 0 <= k < b.len() implies 0 <= #[trigger] b[k] < fams.len() by {
                    if first_of_family(fams, i) {
                        if k < p1.len() {
                            assert((p1 + p2)[k] == p1[k]);
                        } else {
                            assert((p1 + p2)[k] == p2[k - p1.len()]);
                        }
                    }
                }
            },
            None => {},
        }
        assert forall|k: int| 0 <= k < (prev + b).len() implies 0 <= #[trigger] (prev + b)[k] < fams.len() by {
            if k < prev.len() {
                assert((prev + b)[k] == prev[k]);
            } else {
                assert((prev + b)[k] == b[k - prev.len()]);
            }
        }
    }
}

fn families_equal_key(a: &Option<(String, bool)>, key: &String, parent: bool) -> (r: bool)
    ensures
        r == (fam_view(*a) == Some((key@, parent))),
{
    match a {
        Some((k, p)) => *p == parent && str_eq(k.as_str(), key.as_str()),
        None => false,
    }
}

fn families_share_key(a: &Option<(String, bool)>, b: &Option<(String, bool)>) -> (r: bool)
    ensures
        r == same_key(fam_view(*a), fam_view(*b)),
{
    match (a, b) {
        (Some((x, _)), Some((y, _))) => str_eq(x.as_str(), y.as_str()),
        _ => false,
    }
}

/// The reordering that gathers each worktree family into one block at its
/// first member's position, parents first.
pub fn coalesce_blocks(families: &Vec<Option<(String, bool)>>) -> (order: Vec<usize>)
    ensures
        order@.map_values(|x: usize| x as int) == coalesce_order(fams_view(families@), families@.len() as int),
{
    let ghost f = fams_view(families@);
    let n = families.len();
    let mut order: Vec<usize> = Vec::new();
    let mut placed: Vec<bool> = Vec::new();
    let mut z: usize = 0;
    while z < n
        invariant
            n == families@.len(),
            z <= n,
            placed@.len() == z,
            forall|j: int| 0 <= j < z ==> !placed@[j],
        decreases n - z,
    {
        placed.push(false);
        z = z + 1;
    }
    let mut i: usize = 0;
    assert(order@.map_values(|x: usize| x as int) =~= coalesce_order(f, 0));
    while i < n
        invariant
            n == families@.len(),
            f == fams_view(families@),
            i <= n,
            placed@.len() == n,
            order@.map_values(|x: usize| x as int) == coalesce_order(f, i as int),
            forall|j: int| #![trigger placed@[j]] i <= j < n ==> placed@[j] == (f[j] is Some
                && exists|m: int| 0 <= m < i && same_key(#[trigger] f[m], f[j])),
        decreases n - i,
    {
        let ghost before = order@.map_values(|x: usize| x as int);
        if placed[i] {
            assert(!first_of_family(f, i as int));
            assert(block(f, i as int) =~= Seq::<int>::empty());
        } else {
            match &families[i] {
                None => {
                    order.push(i);
                    placed.set(i, true);
                    assert(block(f, i as int) == seq![i as int]);
                },
                Some((key, _)) => {
                    let ghost k = key@;
                    assert(first_of_family(f, i as int));
                    // Parents first, then the other members, in item order.
                    let mut pass: usize = 0;
                    while pass < 2
                        invariant
                            n == families@.len(),
                            f == fams_view(families@),
                            i < n,
                            f[i as int] matches Some((kk, _)) && kk == k,
                            k == key@,
                            pass <= 2,
                            placed@.len() == n,
                            order@.map_values(|x: usize| x as int) == before + if pass == 0 {
                                Seq::<int>::empty()
                            } else if pass == 1 {
                                family_members(f, k, true, i as int, n as int)
                            } else {
                                family_members(f, k, true, i as int, n as int) + family_members(f, k, false, i as int, n as int)
                            },
                            forall|j: int| #![trigger placed@[j]] i < j < n ==> placed@[j] == ((f[j] is Some
                                && exists|m: int| 0 <= m < i && same_key(#[trigger] f[m], f[j]))
                                || (pass == 2 && same_key(f[j], f[i as int]))
                                || (pass == 1 && f[j] == Some((k, true)))),
                        decreases 2 - pass,
                    {
                        let parent = pass == 0;
                        let ghost base = order@.map_values(|x: usize| x as int);
                        let mut c: usize = i;
                        assert(family_members(f, k, parent, i as int, i as int) =~= Seq::<int>::empty());
                        assert(base + family_members(f, k, parent, i as int, i as int) =~= base);
                        while c < n
                            invariant
                                n == families@.len(),
                                f == fams_view(families@),
                                i <= c <= n,
                                i < n,
                                k == key@,
                                f[i as int] matches Some((kk, _)) && kk == k,
                                pass < 2,
                                parent == (pass == 0),
                                placed@.len() == n,
                                order@.map_values(|x: usize| x as int) == base + family_members(f, k, parent, i as int, c as int),
                                forall|j: int| #![trigger placed@[j]] i < j < n ==> placed@[j] == ((f[j] is Some
                                    && exists|m: int| 0 <= m < i && same_key(#[trigger] f[m], f[j]))
                                    || (pass == 1 && same_key(f[j], f[i as int]) && j < c)
                                    || (pass == 1 && f[j] == Some((k, true)))
                                    || (pass == 0 && f[j] == Some((k, true)) && j < c)),
                            decreases n - c,
                        {
                            let ghost prev = order@.map_values(|x: usize| x as int);
                            if families_equal_key(&families[c], key, parent) {
                                order.push(c);
                                placed.set(c, true);
                                assert(order@.map_values(|x: usize| x as int) =~= prev.push(c as int));
                            }
                            assert(base + family_members(f, k, parent, i as int, c + 1)
                                =~= base + family_members(f, k, parent, i as int, c as int) + if f[c as int] == Some((k, parent)) {
                                    seq![c as int]
                                } else {
                                    Seq::<int>::empty()
                                });
                            c = c + 1;
                        }
                        pass = pass + 1;
                    }
                    assert(block(f, i as int) == family_members(f, k, true, i as int, n as int) + family_members(f, k, false, i as int, n as int));
                },
            }
        }
        assert(coalesce_order(f, i + 1) == coalesce_order(f, i as int) + block(f, i as int));
        assert forall|j: int| #![trigger placed@[j]] i + 1 <= j < n implies placed@[j] == (f[j] is Some
            && exists|m: int| 0 <= m < i + 1 && same_key(#[trigger] f[m], f[j])) by {
            if f[j] is Some && same_key(f[i as int], f[j]) {
                assert(0 <= i < i + 1);
            }
        }
        i = i + 1;
    }
    order
}

} // verus!
