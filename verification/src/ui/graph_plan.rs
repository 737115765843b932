//! The structure of the dependency graph view: its roots, the dependencies
//! shown within the chosen depth, the tree every shown dependency hangs in,
//! and the edges drawn.

use vstd::prelude::*;

use crate::model::dep_tree::{indices_below, DependencyTree};
use crate::model::package::PackageInfo;
use crate::model::package_source::PackageSource;
use crate::text::{chars_of, strs};
use crate::ui::categories::primary_category_of;
use crate::ui::graph_layout::{
    text_less, key_of, key_view, key_views, root_key, sort_keys, stable_sorted, GraphFilter, GraphSort,
    KeyView, RootKey, is_root_package,
};

verus! {

/// A package on which at least this many packages depend is part of the
/// base system; it is traversed but never shown.
pub const BASE_THRESHOLD: usize = 50;

/// Whether package `i` is part of the base system.
pub open spec fn is_base(t: &DependencyTree, i: int) -> bool {
    t.reverse_at(i).len() >= BASE_THRESHOLD
}

/// The category filter as plain text.
pub open spec fn category_view(category: Option<&str>) -> Option<Seq<char>> {
    match category {
        Some(c) => Some(c@),
        None => None,
    }
}

/// The positions below `k`, in order, of the packages that are roots.
pub open spec fn candidates_upto(t: &DependencyTree, filter: GraphFilter, category: Option<Seq<char>>, k: int) -> Seq<usize>
    decreases k,
{
    if k <= 0 {
        seq![]
    } else {
        let rest = candidates_upto(t, filter, category, k - 1);
        if is_root_package(filter, category, t.info_at(k - 1)) {
            rest.push((k - 1) as usize)
        } else {
            rest
        }
    }
}

/// The sort keys of the packages at the given positions.
pub open spec fn keys_at(t: &DependencyTree, idx: Seq<usize>) -> Seq<KeyView> {
    idx.map_values(|i: usize| key_of(i, t.info_at(i as int)))
}

/// The roots of the graph, in display order.
pub open spec fn graph_roots(t: &DependencyTree, filter: GraphFilter, sort: GraphSort, category: Option<Seq<char>>) -> Seq<usize> {
    stable_sorted(sort, keys_at(t, candidates_upto(t, filter, category, t.len() as int))).map_values(
        |k: KeyView| k.index,
    )
}

proof fn lemma_candidates_below(t: &DependencyTree, filter: GraphFilter, category: Option<Seq<char>>, k: int)
    ensures
        forall|j: int| 0 <= j < candidates_upto(t, filter, category, k).len() ==> #[trigger] candidates_upto(
            t,
            filter,
            category,
            k,
        )[j] < k,
    decreases k,
{
    if k > 0 {
        lemma_candidates_below(t, filter, category, k - 1);
        let rest = candidates_upto(t, filter, category, k - 1);
        let c = candidates_upto(t, filter, category, k);
        assert forall|j: int| 0 <= j < c.len() implies #[trigger] c[j] < k by {
            if j < rest.len() {
                assert(c[j] == rest[j]);
            }
        }
    }
}

proof fn lemma_insert_indices(sort: GraphSort, s: Seq<KeyView>, x: KeyView, n: int)
    requires
        forall|j: int| 0 <= j < s.len() ==> #[trigger] s[j].index < n,
        x.index < n,
    ensures
        forall|j: int| 0 <= j < crate::ui::graph_layout::insert_in_order(sort, s, x).len() ==> #[trigger] crate::ui::graph_layout::insert_in_order(sort, s, x)[j].index < n,
        crate::ui::graph_layout::insert_in_order(sort, s, x).to_multiset() == s.to_multiset().insert(x),
    decreases s.len(),
{
    broadcast use vstd::seq_lib::group_seq_properties;
    if s.len() > 0 && crate::ui::graph_layout::root_before(sort, x, s.last()) {
        lemma_insert_indices(sort, s.drop_last(), x, n);
        assert(s.drop_last().push(s.last()) =~= s);
    }
}

proof fn lemma_sorted_indices(sort: GraphSort, s: Seq<KeyView>, n: int)
    requires
        forall|j: int| 0 <= j < s.len() ==> #[trigger] s[j].index < n,
    ensures
        forall|j: int| 0 <= j < stable_sorted(sort, s).len() ==> #[trigger] stable_sorted(sort, s)[j].index < n,
        stable_sorted(sort, s).to_multiset() == s.to_multiset(),
    decreases s.len(),
{
    broadcast use vstd::seq_lib::group_seq_properties;
    if s.len() > 0 {
        lemma_sorted_indices(sort, s.drop_last(), n);
        lemma_insert_indices(sort, stable_sorted(sort, s.drop_last()), s.last(), n);
        assert(s.drop_last().push(s.last()) =~= s);
    }
}

/// Whether the keys have pairwise different positions.
pub open spec fn distinct_indices(s: Seq<KeyView>) -> bool {
    forall|i: int, j: int| 0 <= i < j < s.len() ==> #[trigger] s[i].index != #[trigger] s[j].index
}

proof fn lemma_insert_keeps(sort: GraphSort, s: Seq<KeyView>, x: KeyView)
    ensures
        crate::ui::graph_layout::insert_in_order(sort, s, x).len() == s.len() + 1,
        forall|v: KeyView| #[trigger] crate::ui::graph_layout::insert_in_order(sort, s, x).contains(v) <==> (s.contains(v) || v == x),
        distinct_indices(s) && (forall|j: int| 0 <= j < s.len() ==> #[trigger] s[j].index != x.index)
            ==> distinct_indices(crate::ui::graph_layout::insert_in_order(sort, s, x)),
    decreases s.len(),
{
    broadcast use vstd::seq_lib::group_seq_properties;
    let ins = crate::ui::graph_layout::insert_in_order(sort, s, x);
    if s.len() > 0 && crate::ui::graph_layout::root_before(sort, x, s.last()) {
        let d = s.drop_last();
        lemma_insert_keeps(sort, d, x);
        let sub = crate::ui::graph_layout::insert_in_order(sort, d, x);
        assert(ins == sub.push(s.last()));
        assert forall|v: KeyView| #[trigger] ins.contains(v) <==> (s.contains(v) || v == x) by {
            assert(s =~= d.push(s.last()));
        }
        if distinct_indices(s) && (forall|j: int| 0 <= j < s.len() ==> #[trigger] s[j].index != x.index) {
            assert(distinct_indices(d));
            assert forall|a: int, b: int| 0 <= a < b < ins.len() implies #[trigger] ins[a].index != #[trigger] ins[b].index by {
                if b == ins.len() - 1 {
                    assert(ins[b] == s.last());
                    assert(sub.contains(ins[a]));
                    if ins[a] == x {
                    } else {
                        assert(d.contains(ins[a]));
                        let k = choose|k: int| 0 <= k < d.len() && d[k] == ins[a];
                        assert(s[k] == d[k]);
                    }
                } else {
                    assert(ins[a] == sub[a] && ins[b] == sub[b]);
                }
            }
        }
    } else {
        assert forall|v: KeyView| #[trigger] ins.contains(v) <==> (s.contains(v) || v == x) by {
            if s.len() == 0 {
                assert(ins =~= seq![x]);
            }
        }
    }
}

proof fn lemma_sorted_keeps(sort: GraphSort, s: Seq<KeyView>)
    ensures
        stable_sorted(sort, s).len() == s.len(),
        forall|v: KeyView| #[trigger] stable_sorted(sort, s).contains(v) <==> s.contains(v),
        distinct_indices(s) ==> distinct_indices(stable_sorted(sort, s)),
    decreases s.len(),
{
    broadcast use vstd::seq_lib::group_seq_properties;
    if s.len() > 0 {
        let d = s.drop_last();
        lemma_sorted_keeps(sort, d);
        let sd = stable_sorted(sort, d);
        lemma_insert_keeps(sort, sd, s.last());
        assert(s =~= d.push(s.last()));
        if distinct_indices(s) {
            assert(distinct_indices(d));
            assert forall|j: int| 0 <= j < sd.len() implies #[trigger] sd[j].index != s.last().index by {
                assert(sd.contains(sd[j]));
                let k = choose|k: int| 0 <= k < d.len() && d[k] == sd[j];
                assert(s[k] == d[k]);
            }
        }
    }
}

proof fn lemma_candidates(t: &DependencyTree, filter: GraphFilter, category: Option<Seq<char>>, k: int)
    requires
        0 <= k <= usize::MAX,
    ensures
        forall|a: int, b: int| 0 <= a < b < candidates_upto(t, filter, category, k).len() ==> #[trigger] candidates_upto(t, filter, category, k)[a] < #[trigger] candidates_upto(t, filter, category, k)[b],
        forall|j: int| 0 <= j < candidates_upto(t, filter, category, k).len() ==> is_root_package(filter, category, t.info_at(#[trigger] candidates_upto(t, filter, category, k)[j] as int)) && candidates_upto(t, filter, category, k)[j] < k,
        forall|i: usize| i < k && is_root_package(filter, category, t.info_at(i as int)) ==> #[trigger] candidates_upto(t, filter, category, k).contains(i),
    decreases k,
{
    broadcast use vstd::seq_lib::group_seq_properties;
    if k > 0 {
        lemma_candidates(t, filter, category, k - 1);
        let rest = candidates_upto(t, filter, category, k - 1);
        let c = candidates_upto(t, filter, category, k);
        if is_root_package(filter, category, t.info_at(k - 1)) {
            assert(c == rest.push((k - 1) as usize));
            assert forall|a: int, b: int| 0 <= a < b < c.len() implies #[trigger] c[a] < #[trigger] c[b] by {
                if b < rest.len() {
                    assert(c[a] == rest[a] && c[b] == rest[b]);
                } else {
                    assert(c[a] == rest[a]);
                    assert(rest[a] < k - 1);
                }
            }
            assert forall|j: int| 0 <= j < c.len() implies is_root_package(filter, category, t.info_at(#[trigger] c[j] as int)) && c[j] < k by {
                if j < rest.len() {
                    assert(c[j] == rest[j]);
                } else {
                    assert(c[j] == k - 1);
                }
            }
        } else {
            assert(c == rest);
        }
    }
}

/// The roots of the graph are exactly the packages that are roots by the
/// filter and category: whatever the sort order, no other package is a
/// root and none is missing.
proof fn lemma_graph_roots_members(t: &DependencyTree, filter: GraphFilter, sort: GraphSort, cat: Option<Seq<char>>)
    requires
        t.wf(),
    ensures
        forall|i: usize| #[trigger] graph_roots(t, filter, sort, cat).contains(i) <==> (i < t.len() && is_root_package(filter, cat, t.info_at(i as int))),
{
    t.lemma_wf();
    let n = t.len() as int;
    let c = candidates_upto(t, filter, cat, n);
    let ks = keys_at(t, c);
    let sv = stable_sorted(sort, ks);
    let roots = graph_roots(t, filter, sort, cat);
    lemma_candidates(t, filter, cat, n);
    lemma_sorted_keeps(sort, ks);
    assert forall|i: usize| #[trigger] roots.contains(i) <==> (i < t.len() && is_root_package(filter, cat, t.info_at(i as int))) by {
        if roots.contains(i) {
            let k = choose|k: int| 0 <= k < roots.len() && roots[k] == i;
            assert(roots[k] == sv[k].index);
            assert(sv.contains(sv[k]));
            assert(ks.contains(sv[k]));
            let j = choose|j: int| 0 <= j < ks.len() && ks[j] == sv[k];
            assert(ks[j].index == c[j]);
        }
        if i < t.len() && is_root_package(filter, cat, t.info_at(i as int)) {
            assert(c.contains(i));
            let j = choose|j: int| 0 <= j < c.len() && c[j] == i;
            assert(ks[j].index == i);
            assert(ks.contains(ks[j]));
            assert(sv.contains(ks[j]));
            let k = choose|k: int| 0 <= k < sv.len() && sv[k] == ks[j];
            assert(roots[k] == i);
        }
    }
}

/// Every root of the graph is an explicitly installed package that the
/// filter admits: a Pacman package under the Pacman filter, an AUR package
/// under the AUR filter, a package with a display name under the desktop
/// apps filter, and of the chosen primary category when one is chosen.
pub proof fn lemma_roots_pass_filter(
    t: &DependencyTree,
    filter: GraphFilter,
    sort: GraphSort,
    cat: Option<Seq<char>>,
    i: usize,
)
    requires
        t.wf(),
        graph_roots(t, filter, sort, cat).contains(i),
    ensures
        i < t.len(),
        t.info_at(i as int).is_explicit,
        filter == GraphFilter::Pacman ==> t.info_at(i as int).source == PackageSource::Pacman,
        filter == GraphFilter::Aur ==> t.info_at(i as int).source == PackageSource::Aur,
        filter == GraphFilter::DesktopApps ==> t.info_at(i as int).display_name@.len() > 0,
        cat is Some ==> primary_category_of(strs(t.info_at(i as int).categories@)) == cat->0,
{
    lemma_graph_roots_members(t, filter, sort, cat);
}

/// Every explicitly installed package that the filter admits, and of the
/// chosen primary category when one is chosen, is a root of the graph.
pub proof fn lemma_admitted_packages_are_roots(
    t: &DependencyTree,
    filter: GraphFilter,
    sort: GraphSort,
    cat: Option<Seq<char>>,
    i: usize,
)
    requires
        t.wf(),
        i < t.len(),
        t.info_at(i as int).is_explicit,
        match filter {
            GraphFilter::All => true,
            GraphFilter::Pacman => t.info_at(i as int).source == PackageSource::Pacman,
            GraphFilter::Aur => t.info_at(i as int).source == PackageSource::Aur,
            GraphFilter::DesktopApps => t.info_at(i as int).display_name@.len() > 0,
        },
        cat is Some ==> primary_category_of(strs(t.info_at(i as int).categories@)) == cat->0,
    ensures
        graph_roots(t, filter, sort, cat).contains(i),
{
    lemma_graph_roots_members(t, filter, sort, cat);
}

/// The roots of the graph, in display order.
pub fn select_roots(
    t: &DependencyTree,
    filter: GraphFilter,
    sort: GraphSort,
    category: Option<&str>,
) -> (r: Vec<usize>)
    requires
        t.wf(),
    ensures
        r@ == graph_roots(t, filter, sort, category_view(category)),
        indices_below(r@, t.len() as int),
        r@.no_duplicates(),
        forall|i: usize| #[trigger] r@.contains(i) <==> (i < t.len() && is_root_package(filter, category_view(category), t.info_at(i as int))),
{
    let n = t.package_count();
    let ghost cat = category_view(category);
    let mut keys: Vec<RootKey> = Vec::new();
    let mut i: usize = 0;
    while i < n
        invariant
            t.wf(),
            n == t.len(),
            i <= n,
            cat == category_view(category),
            key_views(keys@) == keys_at(t, candidates_upto(t, filter, cat, i as int)),
        decreases n - i,
    {
        let p = t.info(i);
        proof {
            assert(candidates_upto(t, filter, cat, i + 1) == if is_root_package(filter, cat, t.info_at(i as int)) {
                candidates_upto(t, filter, cat, i as int).push(i)
            } else {
                candidates_upto(t, filter, cat, i as int)
            });
        }
        if crate::ui::graph_layout::root_package(filter, category, p) {
            let k = root_key(i, p);
            let ghost before = keys@;
            keys.push(k);
            proof {
                assert(key_views(keys@) =~= key_views(before).push(key_view(k)));
                assert(keys_at(t, candidates_upto(t, filter, cat, i as int).push(i)) =~= keys_at(
                    t,
                    candidates_upto(t, filter, cat, i as int),
                ).push(key_of(i, t.info_at(i as int))));
            }
        }
        i = i + 1;
    }
    let sorted = sort_keys(sort, keys);
    let ghost sv = key_views(sorted@);
    proof {
        lemma_candidates_below(t, filter, cat, n as int);
        let ks = keys_at(t, candidates_upto(t, filter, cat, n as int));
        assert forall|j: int| 0 <= j < ks.len() implies #[trigger] ks[j].index < n by {
            assert(ks[j].index == candidates_upto(t, filter, cat, n as int)[j]);
        }
        lemma_sorted_indices(sort, ks, n as int);
    }
    let mut r: Vec<usize> = Vec::new();
    let mut j: usize = 0;
    while j < sorted.len()
        invariant
            j <= sorted@.len(),
            sv == key_views(sorted@),
            r@ == sv.take(j as int).map_values(|k: KeyView| k.index),
        decreases sorted@.len() - j,
    {
        proof {
            assert(sv[j as int].index == sorted@[j as int].index);
            assert(sv.take(j + 1).map_values(|k: KeyView| k.index) =~= sv.take(j as int).map_values(
                |k: KeyView| k.index,
            ).push(sorted@[j as int].index));
        }
        r.push(sorted[j].index);
        j = j + 1;
    }
    proof {
        assert(sv.take(sv.len() as int) =~= sv);
        assert forall|k: int| 0 <= k < r@.len() implies #[trigger] r@[k] < t.len() by {
            assert(r@[k] == sv[k].index);
        }
        let c = candidates_upto(t, filter, cat, n as int);
        let ks = keys_at(t, c);
        lemma_candidates(t, filter, cat, n as int);
        lemma_sorted_keeps(sort, ks);
        assert(distinct_indices(ks)) by {
            assert forall|a: int, b: int| 0 <= a < b < ks.len() implies #[trigger] ks[a].index != #[trigger] ks[b].index by {
                assert(ks[a].index == c[a] && ks[b].index == c[b]);
            }
        }
        assert(sv == stable_sorted(sort, ks));
        assert(r@.len() == sv.len());
        assert forall|k: int| 0 <= k < r@.len() implies #[trigger] r@[k] == sv[k].index by {}
        assert(r@.no_duplicates()) by {
            assert forall|a: int, b: int| 0 <= a < r@.len() && 0 <= b < r@.len() && a != b implies r@[a] != r@[b] by {
                if a < b {
                    assert(sv[a].index != sv[b].index);
                } else {
                    assert(sv[b].index != sv[a].index);
                }
            }
        }
        assert forall|i: usize| #[trigger] r@.contains(i) <==> (i < t.len() && is_root_package(filter, cat, t.info_at(i as int))) by {
            if r@.contains(i) {
                let k = choose|k: int| 0 <= k < r@.len() && r@[k] == i;
                assert(sv.contains(sv[k]));
                assert(ks.contains(sv[k]));
                let j = choose|j: int| 0 <= j < ks.len() && ks[j] == sv[k];
                assert(ks[j].index == c[j]);
            }
            if i < t.len() && is_root_package(filter, cat, t.info_at(i as int)) {
                assert(c.contains(i));
                let j = choose|j: int| 0 <= j < c.len() && c[j] == i;
                assert(ks.contains(ks[j]));
                assert(sv.contains(ks[j]));
                let k = choose|k: int| 0 <= k < sv.len() && sv[k] == ks[j];
                assert(r@[k] == i);
            }
        }
    }
    r
}

// ---------------------------------------------------------------------------
// Reach
// ---------------------------------------------------------------------------

/// The packages within `k` dependency steps of a root.
pub open spec fn reach_set(t: &DependencyTree, roots: Seq<usize>, k: nat) -> Set<usize>
    decreases k,
{
    if k == 0 {
        roots.to_set()
    } else {
        let prev = reach_set(t, roots, (k - 1) as nat);
        prev.union(
            Set::new(
                |d: usize|
                    exists|x: usize| x < t.len() && #[trigger] prev.contains(x) && t.forward_at(x as int).contains(d),
            ),
        )
    }
}

/// Whether package `d` is within `k` dependency steps of a root.
pub open spec fn reached(t: &DependencyTree, roots: Seq<usize>, k: nat, d: usize) -> bool {
    reach_set(t, roots, k).contains(d)
}

/// Whether `d` is a dependency of a package within `k` steps of a root.
pub open spec fn reached_by_step(t: &DependencyTree, roots: Seq<usize>, k: nat, d: usize) -> bool {
    exists|x: usize| x < t.len() && #[trigger] reach_set(t, roots, k).contains(x) && t.forward_at(x as int).contains(d)
}

proof fn lemma_reached_unfold(t: &DependencyTree, roots: Seq<usize>, k: nat, d: usize)
    ensures
        k == 0 ==> reached(t, roots, k, d) == roots.contains(d),
        k > 0 ==> reached(t, roots, k, d) == (reached(t, roots, (k - 1) as nat, d) || reached_by_step(
            t,
            roots,
            (k - 1) as nat,
            d,
        )),
{
}

/// Whether `d` is a dependency of one of the given packages.
pub open spec fn step_from(t: &DependencyTree, from: Seq<usize>, d: usize) -> bool {
    exists|j: int| 0 <= j < from.len() && #[trigger] t.forward_at(from[j] as int).contains(d)
}

/// The frontier of a breadth-first search: the packages first reached at
/// `level`.
pub open spec fn is_frontier(t: &DependencyTree, roots: Seq<usize>, level: nat, f: Seq<usize>) -> bool {
    &&& forall|j: int| 0 <= j < f.len() ==> #[trigger] f[j] < t.len()
    &&& forall|j: int| 0 <= j < f.len() ==> reached(t, roots, level, #[trigger] f[j])
    &&& forall|j: int| 0 <= j < f.len() ==> level > 0 ==> !reached(t, roots, (level - 1) as nat, #[trigger] f[j])
    &&& forall|d: usize|
        d < t.len() && reached(t, roots, level, d) && (level == 0 || !reached(t, roots, (level - 1) as nat, d))
            ==> #[trigger] f.contains(d)
}

proof fn lemma_step(t: &DependencyTree, roots: Seq<usize>, level: nat, f: Seq<usize>, d: usize)
    requires
        t.wf(),
        indices_below(roots, t.len() as int),
        is_frontier(t, roots, level, f),
        d < t.len(),
    ensures
        reached(t, roots, level + 1, d) == (reached(t, roots, level, d) || step_from(t, f, d)),
{
    lemma_reached_unfold(t, roots, level + 1, d);
    if step_from(t, f, d) {
        let j = choose|j: int| 0 <= j < f.len() && #[trigger] t.forward_at(f[j] as int).contains(d);
        let x = f[j];
        assert(reached(t, roots, level, x));
        assert(x < t.len());
        assert(reached_by_step(t, roots, level, d));
    }
    if reached(t, roots, level + 1, d) && !reached(t, roots, level, d) {
        let x = choose|x: usize|
            x < t.len() && #[trigger] reach_set(t, roots, level).contains(x) && t.forward_at(x as int).contains(d);
        if level == 0 || !reached(t, roots, (level - 1) as nat, x) {
            assert(f.contains(x));
            let j = choose|j: int| 0 <= j < f.len() && #[trigger] f[j] == x;
            assert(t.forward_at(f[j] as int).contains(d));
        } else {
            lemma_reached_unfold(t, roots, level, d);
            lemma_reached_unfold(t, roots, level, x);
            assert(reached_by_step(t, roots, (level - 1) as nat, d));
        }
    }
}

proof fn lemma_stable(t: &DependencyTree, roots: Seq<usize>, level: nat, k: nat)
    requires
        t.wf(),
        indices_below(roots, t.len() as int),
        is_frontier(t, roots, level, seq![]),
        level <= k,
    ensures
        forall|d: usize| d < t.len() ==> reached(t, roots, k, d) == reached(t, roots, level, d),
    decreases k - level,
{
    if k > level {
        lemma_stable(t, roots, level, (k - 1) as nat);
        assert forall|d: usize| d < t.len() implies reached(t, roots, k, d) == reached(t, roots, level, d) by {
            lemma_reached_unfold(t, roots, k, d);
            if reached(t, roots, k, d) && !reached(t, roots, (k - 1) as nat, d) {
                let x = choose|x: usize|
                    x < t.len() && #[trigger] reach_set(t, roots, (k - 1) as nat).contains(x) && t.forward_at(x as int).contains(d);
                assert(reached(t, roots, level, x));
                lemma_step(t, roots, level, seq![], d);
                lemma_reached_unfold(t, roots, level + 1, d);
                assert(reached_by_step(t, roots, level, d));
                assert(!step_from(t, seq![], d));
            }
        }
    }
}

fn false_flags(n: usize) -> (r: Vec<bool>)
    ensures
        r@.len() == n,
        forall|i: int| 0 <= i < n ==> !#[trigger] r@[i],
{
    let mut r: Vec<bool> = Vec::new();
    let mut i: usize = 0;
    while i < n
        invariant
            i <= n,
            r@.len() == i,
            forall|k: int| 0 <= k < i ==> !#[trigger] r@[k],
        decreases n - i,
    {
        r.push(false);
        i = i + 1;
    }
    r
}

/// Which packages are within `depth` dependency steps of a root, found by a
/// breadth-first search.
pub fn reach_flags(t: &DependencyTree, roots: &Vec<usize>, depth: usize) -> (r: Vec<bool>)
    requires
        t.wf(),
        indices_below(roots@, t.len() as int),
    ensures
        r@.len() == t.len(),
        forall|d: usize| d < t.len() ==> #[trigger] r@[d as int] == reached(t, roots@, depth as nat, d),
{
    let n = t.package_count();
    let mut visited = false_flags(n);
    let mut frontier: Vec<usize> = Vec::new();
    let mut i: usize = 0;
    while i < roots.len()
        invariant
            t.wf(),
            n == t.len(),
            indices_below(roots@, t.len() as int),
            i <= roots@.len(),
            visited@.len() == n,
            forall|d: usize| d < n ==> #[trigger] visited@[d as int] == roots@.take(i as int).contains(d),
            forall|j: int| 0 <= j < frontier@.len() ==> #[trigger] frontier@[j] < n,
            forall|j: int| 0 <= j < frontier@.len() ==> roots@.take(i as int).contains(#[trigger] frontier@[j]),
            forall|d: usize| d < n && roots@.take(i as int).contains(d) ==> #[trigger] frontier@.contains(d),
        decreases roots@.len() - i,
    {
        let x = roots[i];
        proof {
            assert(roots@[i as int] < n);
            assert(roots@.take(i + 1) =~= roots@.take(i as int).push(x));
        }
        if !visited[x] {
            visited[x] = true;
            frontier.push(x);
        }
        proof {
            broadcast use vstd::seq_lib::group_seq_properties;
            assert forall|d: usize| d < n implies #[trigger] visited@[d as int] == roots@.take(i + 1).contains(d) by {
                if d == x {
                    assert(roots@.take(i + 1)[i as int] == x);
                }
            }
            assert forall|d: usize| d < n && roots@.take(i + 1).contains(d) implies #[trigger] frontier@.contains(d) by {
                if d == x {
                    if roots@.take(i as int).contains(x) {
                        assert(frontier@.contains(x));
                    } else {
                        assert(frontier@[frontier@.len() - 1] == x);
                    }
                } else {
                    let k = choose|k: int| 0 <= k < roots@.take(i + 1).len() && #[trigger] roots@.take(i + 1)[k] == d;
                    assert(k < i);
                    assert(roots@.take(i as int)[k] == d);
                }
            }
            assert forall|j: int| 0 <= j < frontier@.len() implies roots@.take(i + 1).contains(#[trigger] frontier@[j]) by {
                if frontier@[j] == x {
                    assert(roots@.take(i + 1)[i as int] == x);
                } else {
                    let k = choose|k: int| 0 <= k < roots@.take(i as int).len() && #[trigger] roots@.take(i as int)[k] == frontier@[j];
                    assert(roots@.take(i + 1)[k] == frontier@[j]);
                }
            }
        }
        i = i + 1;
    }
    proof {
        assert(roots@.take(roots@.len() as int) =~= roots@);
        assert(is_frontier(t, roots@, 0, frontier@));
    }
    let mut level: usize = 0;
    while level < depth && frontier.len() > 0
        invariant
            t.wf(),
            n == t.len(),
            indices_below(roots@, t.len() as int),
            level <= depth,
            visited@.len() == n,
            forall|d: usize| d < n ==> #[trigger] visited@[d as int] == reached(t, roots@, level as nat, d),
            is_frontier(t, roots@, level as nat, frontier@),
        decreases depth - level,
    {
        let mut next: Vec<usize> = Vec::new();
        let mut fi: usize = 0;
        while fi < frontier.len()
            invariant
                t.wf(),
                n == t.len(),
                indices_below(roots@, t.len() as int),
                visited@.len() == n,
                fi <= frontier@.len(),
                is_frontier(t, roots@, level as nat, frontier@),
                forall|d: usize| d < n ==> #[trigger] visited@[d as int] == (reached(t, roots@, level as nat, d)
                    || step_from(t, frontier@.take(fi as int), d)),
                forall|j: int| 0 <= j < next@.len() ==> #[trigger] next@[j] < n,
                forall|j: int| 0 <= j < next@.len() ==> visited@[#[trigger] next@[j] as int],
                forall|j: int| 0 <= j < next@.len() ==> !reached(t, roots@, level as nat, #[trigger] next@[j]),
                forall|d: usize| d < n && visited@[d as int] && !reached(t, roots@, level as nat, d) ==> #[trigger] next@.contains(d),
            decreases frontier@.len() - fi,
        {
            let x = frontier[fi];
            proof {
                assert(frontier@[fi as int] < n);
                t.lemma_wf();
                assert(indices_below(t.forward_at(x as int), n as int));
            }
            let fw = t.forward(x);
            let ghost done = frontier@.take(fi as int);
            let mut ei: usize = 0;
            while ei < fw.len()
                invariant
                    t.wf(),
                    n == t.len(),
                    visited@.len() == n,
                    x < n,
                    fw@ == t.forward_at(x as int),
                    indices_below(fw@, n as int),
                    ei <= fw@.len(),
                    forall|d: usize| d < n ==> #[trigger] visited@[d as int] == (reached(t, roots@, level as nat, d)
                        || step_from(t, done, d) || fw@.take(ei as int).contains(d)),
                    forall|j: int| 0 <= j < next@.len() ==> #[trigger] next@[j] < n,
                    forall|j: int| 0 <= j < next@.len() ==> visited@[#[trigger] next@[j] as int],
                    forall|j: int| 0 <= j < next@.len() ==> !reached(t, roots@, level as nat, #[trigger] next@[j]),
                    forall|d: usize| d < n && visited@[d as int] && !reached(t, roots@, level as nat, d) ==> #[trigger] next@.contains(d),
                decreases fw@.len() - ei,
            {
                let d = fw[ei];
                proof {
                    assert(fw@[ei as int] < n);
                    assert(fw@.take(ei + 1) =~= fw@.take(ei as int).push(d));
                }
                let ghost was = visited@[d as int];
                if !visited[d] {
                    visited[d] = true;
                    next.push(d);
                    proof {
                        assert(next@[next@.len() - 1] == d);
                        assert(next@.contains(d));
                    }
                }
                proof {
                    broadcast use vstd::seq_lib::group_seq_properties;
                    assert forall|e: usize| e < n implies #[trigger] visited@[e as int] == (reached(t, roots@, level as nat, e)
                        || step_from(t, done, e) || fw@.take(ei + 1).contains(e)) by {
                        if e == d {
                            assert(fw@.take(ei + 1)[ei as int] == d);
                        } else if fw@.take(ei + 1).contains(e) {
                            let k = choose|k: int| 0 <= k < fw@.take(ei + 1).len() && #[trigger] fw@.take(ei + 1)[k] == e;
                            assert(fw@.take(ei as int)[k] == e);
                        }
                    }
                    assert forall|e: usize| e < n && visited@[e as int] && !reached(t, roots@, level as nat, e) implies #[trigger] next@.contains(e) by {
                        if e != d || was {
                            assert(next@.contains(e));
                        }
                    }
                }
                ei = ei + 1;
            }
            proof {
                assert(fw@.take(fw@.len() as int) =~= fw@);
                assert(frontier@.take(fi + 1) =~= done.push(x));
                assert forall|d: usize| d < n implies #[trigger] visited@[d as int] == (reached(t, roots@, level as nat, d)
                    || step_from(t, frontier@.take(fi + 1), d)) by {
                    let ext = frontier@.take(fi + 1);
                    if step_from(t, done, d) {
                        let j = choose|j: int| 0 <= j < done.len() && #[trigger] t.forward_at(done[j] as int).contains(d);
                        assert(ext[j] == done[j]);
                    }
                    if fw@.contains(d) {
                        assert(ext[fi as int] == x);
                        assert(t.forward_at(ext[fi as int] as int).contains(d));
                    }
                    if step_from(t, ext, d) {
                        let j = choose|j: int| 0 <= j < ext.len() && #[trigger] t.forward_at(ext[j] as int).contains(d);
                        if j < fi {
                            assert(done[j] == ext[j]);
                        } else {
                            assert(ext[j] == x);
                        }
                    }
                }
            }
            fi = fi + 1;
        }
        proof {
            assert(frontier@.take(frontier@.len() as int) =~= frontier@);
            assert forall|d: usize| d < n implies #[trigger] visited@[d as int] == reached(t, roots@, (level + 1) as nat, d) by {
                lemma_step(t, roots@, level as nat, frontier@, d);
            }
            assert forall|j: int| 0 <= j < next@.len() implies reached(t, roots@, (level + 1) as nat, #[trigger] next@[j]) by {
                lemma_step(t, roots@, level as nat, frontier@, next@[j]);
            }
        }
        frontier = next;
        level = level + 1;
    }
    proof {
        if level < depth {
            assert(frontier@.len() == 0);
            assert(frontier@ =~= Seq::<usize>::empty());
            lemma_stable(t, roots@, level as nat, depth as nat);
        }
    }
    visited
}

// ---------------------------------------------------------------------------
// Shown packages
// ---------------------------------------------------------------------------

/// How many packages depend on package `i`.
pub open spec fn fan_in(t: &DependencyTree, i: int) -> nat {
    t.reverse_at(i).len()
}

/// Whether a dependency is shown: within the depth, not a root, not part of
/// the base system, and depended on by at most `max_fans` packages.
pub open spec fn shown_dep(t: &DependencyTree, roots: Seq<usize>, depth: nat, max_fans: usize, d: usize) -> bool {
    &&& reached(t, roots, depth, d)
    &&& !roots.contains(d)
    &&& !is_base(t, d as int)
    &&& fan_in(t, d as int) <= max_fans
}

/// Whether a package is a node of the graph: a root or a shown dependency.
pub open spec fn in_graph(t: &DependencyTree, roots: Seq<usize>, depth: nat, max_fans: usize, i: usize) -> bool {
    roots.contains(i) || shown_dep(t, roots, depth, max_fans, i)
}

fn root_flags(n: usize, roots: &Vec<usize>) -> (r: Vec<bool>)
    requires
        indices_below(roots@, n as int),
    ensures
        r@.len() == n,
        forall|i: usize| i < n ==> #[trigger] r@[i as int] == roots@.contains(i),
{
    let mut r = false_flags(n);
    let mut k: usize = 0;
    while k < roots.len()
        invariant
            indices_below(roots@, n as int),
            k <= roots@.len(),
            r@.len() == n,
            forall|i: usize| i < n ==> #[trigger] r@[i as int] == roots@.take(k as int).contains(i),
        decreases roots@.len() - k,
    {
        let x = roots[k];
        proof {
            assert(roots@[k as int] < n);
        }
        r[x] = true;
        proof {
            assert(roots@.take(k + 1) =~= roots@.take(k as int).push(x));
            assert forall|i: usize| i < n implies #[trigger] r@[i as int] == roots@.take(k + 1).contains(i) by {
                if i == x {
                    assert(roots@.take(k + 1)[k as int] == x);
                } else if roots@.take(k + 1).contains(i) {
                    let j = choose|j: int| 0 <= j < roots@.take(k + 1).len() && #[trigger] roots@.take(k + 1)[j] == i;
                    assert(roots@.take(k as int)[j] == i);
                }
            }
        }
        k = k + 1;
    }
    proof {
        assert(roots@.take(roots@.len() as int) =~= roots@);
    }
    r
}

// ---------------------------------------------------------------------------
// The tree: one parent for every shown dependency
// ---------------------------------------------------------------------------

/// Whether `p` may be the tree parent of `d`: it depends on `d`, is a node
/// of the graph, and is not part of the base system.
pub open spec fn parent_candidate(t: &DependencyTree, g: Seq<bool>, d: int, p: usize) -> bool {
    &&& t.reverse_at(d).contains(p)
    &&& p < t.len()
    &&& g[p as int]
    &&& !is_base(t, p as int)
}

/// The preferred parent: fewer dependencies first, then the smaller id.
pub open spec fn parent_less(t: &DependencyTree, p: usize, q: usize) -> bool {
    ||| t.forward_at(p as int).len() < t.forward_at(q as int).len()
    ||| (t.forward_at(p as int).len() == t.forward_at(q as int).len() && text_less(t.id_at(p as int), t.id_at(q as int)))
}

/// Whether `p` is the best parent of `d`.
pub open spec fn best_parent_is(t: &DependencyTree, g: Seq<bool>, d: int, p: usize) -> bool {
    &&& parent_candidate(t, g, d, p)
    &&& forall|q: usize| #[trigger] parent_candidate(t, g, d, q) ==> q == p || parent_less(t, p, q)
}

/// Whether `d` has no possible parent.
pub open spec fn no_parent(t: &DependencyTree, g: Seq<bool>, d: int) -> bool {
    forall|q: usize| !#[trigger] parent_candidate(t, g, d, q)
}

proof fn lemma_parent_order(t: &DependencyTree, p: usize, q: usize, r: usize)
    requires
        t.wf(),
        p < t.len(),
        q < t.len(),
        r < t.len(),
    ensures
        !parent_less(t, p, p),
        !(parent_less(t, p, q) && parent_less(t, q, p)),
        parent_less(t, p, q) && parent_less(t, q, r) ==> parent_less(t, p, r),
        p != q ==> parent_less(t, p, q) || parent_less(t, q, p),
{
    t.lemma_wf();
    crate::ui::graph_layout::lemma_text_less_asymmetric(t.id_at(p as int), t.id_at(q as int));
    if parent_less(t, p, q) && parent_less(t, q, r) {
        if text_less(t.id_at(p as int), t.id_at(q as int)) && text_less(t.id_at(q as int), t.id_at(r as int)) {
            crate::ui::graph_layout::lemma_text_less_transitive(t.id_at(p as int), t.id_at(q as int), t.id_at(r as int));
        }
    }
    if p != q {
        assert(t.id_at(p as int) != t.id_at(q as int));
        crate::ui::graph_layout::lemma_text_less_total(t.id_at(p as int), t.id_at(q as int));
    }
}

fn is_parent_candidate(t: &DependencyTree, g: &Vec<bool>, d: usize, p: usize) -> (r: bool)
    requires
        t.wf(),
        g@.len() == t.len(),
        d < t.len(),
        t.reverse_at(d as int).contains(p),
    ensures
        r == parent_candidate(t, g@, d as int, p),
{
    proof {
        t.lemma_wf();
        let k = choose|k: int| 0 <= k < t.reverse_at(d as int).len() && #[trigger] t.reverse_at(d as int)[k] == p;
        assert(t.reverse_at(d as int)[k] < t.len());
    }
    g[p] && t.reverse(p).len() < BASE_THRESHOLD
}

fn less_parent(t: &DependencyTree, ids: &Vec<Vec<char>>, p: usize, q: usize) -> (r: bool)
    requires
        t.wf(),
        ids@.len() == t.len(),
        forall|i: int| 0 <= i < t.len() ==> #[trigger] ids@[i]@ == t.id_at(i),
        p < t.len(),
        q < t.len(),
    ensures
        r == parent_less(t, p, q),
{
    let a = t.forward(p).len();
    let b = t.forward(q).len();
    a < b || (a == b && crate::ui::graph_layout::chars_less(&ids[p], &ids[q]))
}

/// The best parent of package `d`, if it has a possible parent.
pub fn best_parent(t: &DependencyTree, g: &Vec<bool>, ids: &Vec<Vec<char>>, d: usize) -> (r: Option<usize>)
    requires
        t.wf(),
        g@.len() == t.len(),
        ids@.len() == t.len(),
        forall|i: int| 0 <= i < t.len() ==> #[trigger] ids@[i]@ == t.id_at(i),
        d < t.len(),
    ensures
        match r {
            Some(p) => best_parent_is(t, g@, d as int, p),
            None => no_parent(t, g@, d as int),
        },
{
    let rv = t.reverse(d);
    let mut best: Option<usize> = None;
    let mut k: usize = 0;
    while k < rv.len()
        invariant
            t.wf(),
            g@.len() == t.len(),
            ids@.len() == t.len(),
            forall|i: int| 0 <= i < t.len() ==> #[trigger] ids@[i]@ == t.id_at(i),
            d < t.len(),
            rv@ == t.reverse_at(d as int),
            k <= rv@.len(),
            match best {
                None => forall|j: int| 0 <= j < k ==> !parent_candidate(t, g@, d as int, #[trigger] rv@[j]),
                Some(b) => {
                    &&& parent_candidate(t, g@, d as int, b)
                    &&& forall|j: int|
                        0 <= j < k && parent_candidate(t, g@, d as int, #[trigger] rv@[j]) ==> rv@[j] == b
                            || parent_less(t, b, rv@[j])
                },
            },
        decreases rv@.len() - k,
    {
        let q = rv[k];
        proof {
            assert(rv@.contains(q)) by {
                assert(rv@[k as int] == q);
            }
        }
        if is_parent_candidate(t, g, d, q) {
            match best {
                None => {
                    best = Some(q);
                },
                Some(b) => {
                    if less_parent(t, ids, q, b) {
                        proof {
                            assert forall|j: int|
                                0 <= j < k + 1 && parent_candidate(t, g@, d as int, #[trigger] rv@[j]) implies rv@[j] == q
                                    || parent_less(t, q, rv@[j]) by {
                                if j < k && rv@[j] != q {
                                    lemma_parent_order(t, q, b, rv@[j]);
                                }
                            }
                        }
                        best = Some(q);
                    } else {
                        proof {
                            lemma_parent_order(t, b, q, q);
                        }
                    }
                },
            }
        }
        k = k + 1;
    }
    proof {
        match best {
            None => {
                assert forall|q: usize| !#[trigger] parent_candidate(t, g@, d as int, q) by {
                    if parent_candidate(t, g@, d as int, q) {
                        let j = choose|j: int| 0 <= j < rv@.len() && #[trigger] rv@[j] == q;
                        assert(!parent_candidate(t, g@, d as int, rv@[j]));
                    }
                }
            },
            Some(b) => {
                assert forall|q: usize| #[trigger] parent_candidate(t, g@, d as int, q) implies q == b || parent_less(t, b, q) by {
                    let j = choose|j: int| 0 <= j < rv@.len() && #[trigger] rv@[j] == q;
                    assert(parent_candidate(t, g@, d as int, rv@[j]));
                }
            },
        }
    }
    best
}

/// Whether the packages in `s` are in strictly increasing order of id.
pub open spec fn sorted_by_id(t: &DependencyTree, s: Seq<usize>) -> bool {
    forall|i: int, j: int| 0 <= i < j < s.len() ==> text_less(t.id_at(#[trigger] s[i] as int), t.id_at(#[trigger] s[j] as int))
}

fn insert_by_id(t: &DependencyTree, ids: &Vec<Vec<char>>, list: &mut Vec<usize>, d: usize)
    requires
        t.wf(),
        ids@.len() == t.len(),
        forall|i: int| 0 <= i < t.len() ==> #[trigger] ids@[i]@ == t.id_at(i),
        d < t.len(),
        indices_below(old(list)@, t.len() as int),
        sorted_by_id(t, old(list)@),
        !old(list)@.contains(d),
    ensures
        indices_below(final(list)@, t.len() as int),
        sorted_by_id(t, final(list)@),
        forall|x: usize| #[trigger] final(list)@.contains(x) <==> old(list)@.contains(x) || x == d,
{
    proof {
        t.lemma_wf();
    }
    let mut j: usize = 0;
    while j < list.len() && !crate::ui::graph_layout::chars_less(&ids[d], &ids[list[j]])
        invariant
            t.wf(),
            ids@.len() == t.len(),
            forall|i: int| 0 <= i < t.len() ==> #[trigger] ids@[i]@ == t.id_at(i),
            d < t.len(),
            indices_below(list@, t.len() as int),
            !list@.contains(d),
            j <= list@.len(),
            forall|k: int| 0 <= k < j ==> text_less(t.id_at(#[trigger] list@[k] as int), t.id_at(d as int)),
        decreases list@.len() - j,
    {
        proof {
            t.lemma_wf();
            assert(list@[j as int] < t.len());
            assert(list@[j as int] != d);
            assert(t.id_at(list@[j as int] as int) != t.id_at(d as int));
            crate::ui::graph_layout::lemma_text_less_total(t.id_at(list@[j as int] as int), t.id_at(d as int));
        }
        j = j + 1;
    }
    let ghost old_list = list@;
    proof {
        if j < list@.len() {
            assert(list@[j as int] < t.len());
        }
    }
    list.insert(j, d);
    proof {
        assert(list@ =~= old_list.take(j as int) + seq![d] + old_list.skip(j as int));
        assert forall|a: int, b: int| 0 <= a < b < list@.len() implies text_less(t.id_at(#[trigger] list@[a] as int), t.id_at(#[trigger] list@[b] as int)) by {
            if b < j {
                assert(list@[a] == old_list[a] && list@[b] == old_list[b]);
            } else if b == j {
                assert(list@[a] == old_list[a]);
            } else if a == j {
                assert(list@[b] == old_list[b - 1]);
                if b - 1 > j {
                    assert(text_less(t.id_at(old_list[j as int] as int), t.id_at(old_list[b - 1] as int)));
                    crate::ui::graph_layout::lemma_text_less_transitive(t.id_at(d as int), t.id_at(old_list[j as int] as int), t.id_at(old_list[b - 1] as int));
                }
            } else if a < j {
                assert(list@[a] == old_list[a] && list@[b] == old_list[b - 1]);
                assert(text_less(t.id_at(old_list[a] as int), t.id_at(d as int)));
                assert(old_list[b - 1] < t.len());
                if b - 1 > j {
                    assert(text_less(t.id_at(old_list[j as int] as int), t.id_at(old_list[b - 1] as int)));
                    crate::ui::graph_layout::lemma_text_less_transitive(t.id_at(d as int), t.id_at(old_list[j as int] as int), t.id_at(old_list[b - 1] as int));
                }
                crate::ui::graph_layout::lemma_text_less_transitive(t.id_at(old_list[a] as int), t.id_at(d as int), t.id_at(old_list[b - 1] as int));
            } else {
                assert(list@[a] == old_list[a - 1] && list@[b] == old_list[b - 1]);
            }
        }
        assert forall|x: usize| #[trigger] list@.contains(x) <==> old_list.contains(x) || x == d by {
            if list@.contains(x) {
                let k = choose|k: int| 0 <= k < list@.len() && #[trigger] list@[k] == x;
                if k < j {
                    assert(old_list[k] == x);
                } else if k > j {
                    assert(old_list[k - 1] == x);
                }
            }
            if old_list.contains(x) {
                let k = choose|k: int| 0 <= k < old_list.len() && #[trigger] old_list[k] == x;
                if k < j {
                    assert(list@[k] == x);
                } else {
                    assert(list@[k + 1] == x);
                }
            }
            if x == d {
                assert(list@[j as int] == d);
            }
        }
        assert forall|k: int| 0 <= k < list@.len() implies #[trigger] list@[k] < t.len() by {
            if k < j {
                assert(list@[k] == old_list[k]);
            } else if k > j {
                assert(list@[k] == old_list[k - 1]);
            }
        }
    }
}

// ---------------------------------------------------------------------------
// Edges and the whole plan
// ---------------------------------------------------------------------------

/// Whether `(p, d)` is an edge drawn in the graph: `p` depends on `d`, both
/// are nodes, and `d` is not part of the base system.
pub open spec fn edge_ok(t: &DependencyTree, g: Seq<bool>, p: usize, d: usize) -> bool {
    &&& p < t.len()
    &&& d < t.len()
    &&& g[p as int]
    &&& g[d as int]
    &&& t.forward_at(p as int).contains(d)
    &&& !is_base(t, d as int)
}

/// Whether package `i` has a dependency that is drawn.
pub open spec fn has_graph_dep(t: &DependencyTree, g: Seq<bool>, i: usize) -> bool {
    exists|k: int| 0 <= k < t.forward_at(i as int).len() && {
        let d = #[trigger] t.forward_at(i as int)[k];
        g[d as int] && !is_base(t, d as int)
    }
}

fn pair_in(v: &Vec<(usize, usize)>, from: usize, x: (usize, usize)) -> (r: bool)
    requires
        from <= v@.len(),
    ensures
        r == exists|k: int| from <= k < v@.len() && #[trigger] v@[k] == x,
{
    let mut k = from;
    while k < v.len()
        invariant
            from <= k <= v@.len(),
            forall|j: int| from <= j < k ==> #[trigger] v@[j] != x,
        decreases v@.len() - k,
    {
        if v[k].0 == x.0 && v[k].1 == x.1 {
            return true;
        }
        k = k + 1;
    }
    false
}

/// The edges drawn between the nodes of the graph, each once.
pub fn graph_edges(t: &DependencyTree, g: &Vec<bool>) -> (r: Vec<(usize, usize)>)
    requires
        t.wf(),
        g@.len() == t.len(),
    ensures
        forall|k: int| 0 <= k < r@.len() ==> edge_ok(t, g@, #[trigger] r@[k].0, r@[k].1),
        forall|p: usize, d: usize| edge_ok(t, g@, p, d) ==> #[trigger] r@.contains((p, d)),
        forall|i: int, j: int| 0 <= i < j < r@.len() ==> #[trigger] r@[i] != #[trigger] r@[j],
{
    let n = t.package_count();
    let mut r: Vec<(usize, usize)> = Vec::new();
    let mut p: usize = 0;
    while p < n
        invariant
            t.wf(),
            n == t.len(),
            g@.len() == n,
            p <= n,
            forall|k: int| 0 <= k < r@.len() ==> edge_ok(t, g@, #[trigger] r@[k].0, r@[k].1),
            forall|k: int| 0 <= k < r@.len() ==> #[trigger] r@[k].0 < p,
            forall|a: usize, d: usize| a < p && edge_ok(t, g@, a, d) ==> #[trigger] r@.contains((a, d)),
            forall|i: int, j: int| 0 <= i < j < r@.len() ==> #[trigger] r@[i] != #[trigger] r@[j],
        decreases n - p,
    {
        if g[p] {
            proof {
                t.lemma_wf();
                assert(indices_below(t.forward_at(p as int), n as int));
            }
            let fw = t.forward(p);
            let start = r.len();
            let mut k: usize = 0;
            while k < fw.len()
                invariant
                    t.wf(),
                    n == t.len(),
                    g@.len() == n,
                    p < n,
                    g@[p as int],
                    fw@ == t.forward_at(p as int),
                    indices_below(fw@, n as int),
                    start <= r@.len(),
                    k <= fw@.len(),
                    forall|j: int| 0 <= j < r@.len() ==> edge_ok(t, g@, #[trigger] r@[j].0, r@[j].1),
                    forall|j: int| 0 <= j < start ==> #[trigger] r@[j].0 < p,
                    forall|j: int| start <= j < r@.len() ==> #[trigger] r@[j].0 == p,
                    forall|a: usize, d: usize| a < p && edge_ok(t, g@, a, d) ==> #[trigger] r@.contains((a, d)),
                    forall|j: int| 0 <= j < k && edge_ok(t, g@, p, #[trigger] fw@[j]) ==> r@.contains((p, fw@[j])),
                    forall|i: int, j: int| 0 <= i < j < r@.len() ==> #[trigger] r@[i] != #[trigger] r@[j],
                decreases fw@.len() - k,
            {
                let d = fw[k];
                proof {
                    assert(fw@[k as int] < n);
                    assert(fw@.contains(d));
                }
                if g[d] && t.reverse(d).len() < BASE_THRESHOLD && !pair_in(&r, start, (p, d)) {
                    let ghost before = r@;
                    r.push((p, d));
                    proof {
                        assert(r@[r@.len() - 1] == (p, d));
                        assert(r@.contains((p, d)));
                        assert forall|a: usize, e: usize| a < p && edge_ok(t, g@, a, e) implies #[trigger] r@.contains((a, e)) by {
                            assert(before.contains((a, e)));
                            let j = choose|j: int| 0 <= j < before.len() && #[trigger] before[j] == (a, e);
                            assert(r@[j] == (a, e));
                        }
                        assert forall|j: int| 0 <= j < k + 1 && edge_ok(t, g@, p, #[trigger] fw@[j]) implies r@.contains((p, fw@[j])) by {
                            if j < k {
                                let i = choose|i: int| 0 <= i < before.len() && #[trigger] before[i] == (p, fw@[j]);
                                assert(r@[i] == (p, fw@[j]));
                            }
                        }
                        assert forall|i: int, j: int| 0 <= i < j < r@.len() implies #[trigger] r@[i] != #[trigger] r@[j] by {
                            if j == r@.len() - 1 {
                                if i >= start {
                                    assert(before[i] != (p, d));
                                } else {
                                    assert(before[i].0 < p);
                                }
                                assert(r@[j] == (p, d));
                                assert(r@[i] == before[i]);
                            } else {
                                assert(before[i] != before[j]);
                            }
                        }
                    }
                } else {
                    proof {
                        if edge_ok(t, g@, p, d) {
                            assert(pair_in_spec(r@, start as int, (p, d)));
                            let j = choose|j: int| start <= j < r@.len() && #[trigger] r@[j] == (p, d);
                            assert(r@.contains((p, d)));
                        }
                    }
                }
                k = k + 1;
            }
            proof {
                assert forall|a: usize, d: usize| a < p + 1 && edge_ok(t, g@, a, d) implies #[trigger] r@.contains((a, d)) by {
                    if a == p {
                        let j = choose|j: int| 0 <= j < fw@.len() && #[trigger] fw@[j] == d;
                        assert(edge_ok(t, g@, p, fw@[j]));
                    }
                }
            }
        } else {
            proof {
                assert forall|a: usize, d: usize| a < p + 1 && edge_ok(t, g@, a, d) implies #[trigger] r@.contains((a, d)) by {
                    assert(a != p);
                }
            }
        }
        p = p + 1;
    }
    r
}

pub open spec fn pair_in_spec(v: Seq<(usize, usize)>, from: int, x: (usize, usize)) -> bool {
    exists|k: int| from <= k < v.len() && #[trigger] v[k] == x
}

/// What the graph shows, over package positions.
pub struct GraphPlan {
    /// The roots, in display order.
    pub roots: Vec<usize>,
    /// For each package, whether it is a node of the graph.
    pub nodes: Vec<bool>,
    /// For each package, its parent in the tree, for shown dependencies
    /// that have one.
    pub parent: Vec<Option<usize>>,
    /// For each package, its children in the tree, by increasing id.
    pub children: Vec<Vec<usize>>,
    /// The edges drawn, each once.
    pub edges: Vec<(usize, usize)>,
    /// For each package, whether it is a root with nothing drawn below it;
    /// such roots are placed apart from the tree.
    pub no_dep: Vec<bool>,
}

/// Whether `plan` is the graph of the tree for the given settings.
pub open spec fn plan_of(
    t: &DependencyTree,
    filter: GraphFilter,
    sort: GraphSort,
    depth: nat,
    max_fans: usize,
    category: Option<Seq<char>>,
    plan: GraphPlan,
) -> bool {
    let n = t.len();
    let roots = graph_roots(t, filter, sort, category);
    let g = plan.nodes@;
    &&& plan.roots@ == roots
    &&& g.len() == n
    &&& forall|i: usize| i < n ==> #[trigger] g[i as int] == in_graph(t, roots, depth, max_fans, i)
    &&& plan.parent@.len() == n
    &&& forall|d: usize|
        d < n ==> match #[trigger] plan.parent@[d as int] {
            Some(q) => shown_dep(t, roots, depth, max_fans, d) && best_parent_is(t, g, d as int, q),
            None => !shown_dep(t, roots, depth, max_fans, d) || no_parent(t, g, d as int),
        }
    &&& plan.children@.len() == n
    &&& forall|q: usize| q < n ==> sorted_by_id(t, #[trigger] plan.children@[q as int]@)
    &&& forall|q: usize, x: usize|
        q < n ==> (#[trigger] plan.children@[q as int]@.contains(x) <==> (x < n && plan.parent@[x as int] == Some(q)))
    &&& forall|k: int| 0 <= k < plan.edges@.len() ==> edge_ok(t, g, #[trigger] plan.edges@[k].0, plan.edges@[k].1)
    &&& forall|p: usize, d: usize| edge_ok(t, g, p, d) ==> #[trigger] plan.edges@.contains((p, d))
    &&& forall|i: int, j: int| 0 <= i < j < plan.edges@.len() ==> #[trigger] plan.edges@[i] != #[trigger] plan.edges@[j]
    &&& plan.no_dep@.len() == n
    &&& forall|i: usize|
        i < n ==> #[trigger] plan.no_dep@[i as int] == (roots.contains(i) && plan.children@[i as int]@.len() == 0
            && !has_graph_dep(t, g, i))
}

fn graph_dep(t: &DependencyTree, g: &Vec<bool>, i: usize) -> (r: bool)
    requires
        t.wf(),
        g@.len() == t.len(),
        i < t.len(),
    ensures
        r == has_graph_dep(t, g@, i),
{
    proof {
        t.lemma_wf();
        assert(indices_below(t.forward_at(i as int), t.len() as int));
    }
    let fw = t.forward(i);
    let mut k: usize = 0;
    while k < fw.len()
        invariant
            t.wf(),
            g@.len() == t.len(),
            fw@ == t.forward_at(i as int),
            indices_below(fw@, t.len() as int),
            k <= fw@.len(),
            forall|j: int| 0 <= j < k ==> !(g[#[trigger] fw@[j] as int] && !is_base(t, fw@[j] as int)),
        decreases fw@.len() - k,
    {
        let d = fw[k];
        proof {
            assert(fw@[k as int] < t.len());
        }
        if g[d] && t.reverse(d).len() < BASE_THRESHOLD {
            proof {
                assert(t.forward_at(i as int)[k as int] == d);
            }
            return true;
        }
        k = k + 1;
    }
    false
}

/// Works out what the graph shows: the roots for the filter, sort order and
/// category; the dependencies within `depth` steps that are shown; the
/// tree parent of each shown dependency; the edges; and the roots with
/// nothing drawn below them.
pub fn plan_graph(
    t: &DependencyTree,
    filter: GraphFilter,
    sort: GraphSort,
    depth: usize,
    max_fans: usize,
    category: Option<&str>,
) -> (plan: GraphPlan)
    requires
        t.wf(),
    ensures
        plan_of(t, filter, sort, depth as nat, max_fans, category_view(category), plan),
{
    let n = t.package_count();
    let roots = select_roots(t, filter, sort, category);
    let ghost rs = roots@;
    let reach = reach_flags(t, &roots, depth);
    let is_root = root_flags(n, &roots);
    let mut nodes: Vec<bool> = Vec::new();
    let mut shown: Vec<bool> = Vec::new();
    let mut i: usize = 0;
    while i < n
        invariant
            t.wf(),
            n == t.len(),
            rs == roots@,
            reach@.len() == n,
            is_root@.len() == n,
            forall|d: usize| d < t.len() ==> #[trigger] reach@[d as int] == reached(t, rs, depth as nat, d),
            forall|d: usize| d < n ==> #[trigger] is_root@[d as int] == rs.contains(d),
            i <= n,
            nodes@.len() == i,
            shown@.len() == i,
            forall|d: usize| d < i ==> #[trigger] shown@[d as int] == shown_dep(t, rs, depth as nat, max_fans, d),
            forall|d: usize| d < i ==> #[trigger] nodes@[d as int] == in_graph(t, rs, depth as nat, max_fans, d),
        decreases n - i,
    {
        let fan = t.reverse(i).len();
        let s = reach[i] && !is_root[i] && fan < BASE_THRESHOLD && fan <= max_fans;
        proof {
            assert(reach@[i as int] == reached(t, rs, depth as nat, i));
            assert(is_root@[i as int] == rs.contains(i));
        }
        shown.push(s);
        nodes.push(is_root[i] || s);
        i = i + 1;
    }
    let mut ids: Vec<Vec<char>> = Vec::new();
    let mut k: usize = 0;
    while k < n
        invariant
            t.wf(),
            n == t.len(),
            k <= n,
            ids@.len() == k,
            forall|j: int| 0 <= j < k ==> #[trigger] ids@[j]@ == t.id_at(j),
        decreases n - k,
    {
        ids.push(chars_of(t.id(k).as_str()));
        k = k + 1;
    }
    let mut parent: Vec<Option<usize>> = Vec::new();
    let mut d: usize = 0;
    while d < n
        invariant
            t.wf(),
            n == t.len(),
            nodes@.len() == n,
            shown@.len() == n,
            ids@.len() == n,
            forall|j: int| 0 <= j < n ==> #[trigger] ids@[j]@ == t.id_at(j),
            forall|x: usize| x < n ==> #[trigger] shown@[x as int] == shown_dep(t, rs, depth as nat, max_fans, x),
            d <= n,
            parent@.len() == d,
            forall|x: usize|
                x < d ==> match #[trigger] parent@[x as int] {
                    Some(q) => shown_dep(t, rs, depth as nat, max_fans, x) && best_parent_is(t, nodes@, x as int, q),
                    None => !shown_dep(t, rs, depth as nat, max_fans, x) || no_parent(t, nodes@, x as int),
                },
        decreases n - d,
    {
        proof {
            assert(shown@[d as int] == shown_dep(t, rs, depth as nat, max_fans, d));
        }
        if shown[d] {
            parent.push(best_parent(t, &nodes, &ids, d));
        } else {
            parent.push(None);
        }
        d = d + 1;
    }
    let mut children: Vec<Vec<usize>> = Vec::new();
    let mut c: usize = 0;
    while c < n
        invariant
            c <= n,
            children@.len() == c,
            forall|j: int| 0 <= j < c ==> #[trigger] children@[j]@.len() == 0,
        decreases n - c,
    {
        children.push(Vec::new());
        c = c + 1;
    }
    let mut x: usize = 0;
    while x < n
        invariant
            t.wf(),
            n == t.len(),
            ids@.len() == n,
            forall|j: int| 0 <= j < n ==> #[trigger] ids@[j]@ == t.id_at(j),
            parent@.len() == n,
            forall|y: usize| y < n && (#[trigger] parent@[y as int]).is_some() ==> parent@[y as int].unwrap() < n,
            children@.len() == n,
            x <= n,
            forall|q: usize| q < n ==> sorted_by_id(t, #[trigger] children@[q as int]@),
            forall|q: usize| q < n ==> indices_below(#[trigger] children@[q as int]@, n as int),
            forall|q: usize, y: usize|
                q < n ==> (#[trigger] children@[q as int]@.contains(y) <==> (y < x && parent@[y as int] == Some(q))),
        decreases n - x,
    {
        match parent[x] {
            Some(q) => {
                proof {
                    assert(parent@[x as int] == Some(q));
                    assert(!children@[q as int]@.contains(x));
                }
                let ghost before = children@;
                insert_by_id(t, &ids, &mut children[q], x);
                proof {
                    assert forall|p: usize, y: usize|
                        p < n implies (#[trigger] children@[p as int]@.contains(y) <==> (y < x + 1 && parent@[y as int] == Some(p))) by {
                        if p != q {
                            assert(children@[p as int] == before[p as int]);
                        }
                    }
                    assert forall|p: usize| p < n implies sorted_by_id(t, #[trigger] children@[p as int]@) by {
                        if p != q {
                            assert(children@[p as int] == before[p as int]);
                        }
                    }
                    assert forall|p: usize| p < n implies indices_below(#[trigger] children@[p as int]@, n as int) by {
                        if p != q {
                            assert(children@[p as int] == before[p as int]);
                        }
                    }
                }
            },
            None => {},
        }
        x = x + 1;
    }
    let edges = graph_edges(t, &nodes);
    let mut no_dep: Vec<bool> = Vec::new();
    let mut r: usize = 0;
    while r < n
        invariant
            t.wf(),
            n == t.len(),
            nodes@.len() == n,
            is_root@.len() == n,
            children@.len() == n,
            forall|d: usize| d < n ==> #[trigger] is_root@[d as int] == rs.contains(d),
            r <= n,
            no_dep@.len() == r,
            forall|i: usize|
                i < r ==> #[trigger] no_dep@[i as int] == (rs.contains(i) && children@[i as int]@.len() == 0
                    && !has_graph_dep(t, nodes@, i)),
        decreases n - r,
    {
        proof {
            assert(is_root@[r as int] == rs.contains(r));
        }
        let f = is_root[r] && children[r].len() == 0 && !graph_dep(t, &nodes, r);
        no_dep.push(f);
        r = r + 1;
    }
    GraphPlan { roots, nodes, parent, children, edges, no_dep }
}

proof fn lemma_reach_grows(t: &DependencyTree, roots: Seq<usize>, k1: nat, k2: nat, d: usize)
    requires
        k1 <= k2,
        reached(t, roots, k1, d),
    ensures
        reached(t, roots, k2, d),
    decreases k2 - k1,
{
    if k1 < k2 {
        lemma_reach_grows(t, roots, k1, (k2 - 1) as nat, d);
        lemma_reached_unfold(t, roots, k2, d);
    }
}

/// At depth 0 the graph shows the apps only: its nodes are exactly its
/// roots.
pub proof fn lemma_depth_zero_roots_only(
    t: &DependencyTree,
    filter: GraphFilter,
    sort: GraphSort,
    max_fans: usize,
    category: Option<Seq<char>>,
    plan: GraphPlan,
)
    requires
        plan_of(t, filter, sort, 0, max_fans, category, plan),
    ensures
        forall|i: usize| i < t.len() ==> (#[trigger] plan.nodes@[i as int] <==> plan.roots@.contains(i)),
{
    assert forall|i: usize| i < t.len() implies (#[trigger] plan.nodes@[i as int] <==> plan.roots@.contains(i)) by {
        lemma_reached_unfold(t, plan.roots@, 0, i);
    }
}

/// Raising the depth or the sharing limit only adds nodes: every node of
/// the graph with the smaller depth and limit is a node of the graph with
/// the larger ones (same filter, order and category).
pub proof fn lemma_more_depth_more_nodes(
    t: &DependencyTree,
    filter: GraphFilter,
    sort: GraphSort,
    depth1: nat,
    depth2: nat,
    max_fans1: usize,
    max_fans2: usize,
    category: Option<Seq<char>>,
    plan1: GraphPlan,
    plan2: GraphPlan,
)
    requires
        depth1 <= depth2,
        max_fans1 <= max_fans2,
        plan_of(t, filter, sort, depth1, max_fans1, category, plan1),
        plan_of(t, filter, sort, depth2, max_fans2, category, plan2),
    ensures
        forall|i: usize| i < t.len() && #[trigger] plan1.nodes@[i as int] ==> plan2.nodes@[i as int],
{
    let roots = graph_roots(t, filter, sort, category);
    assert forall|i: usize| i < t.len() && #[trigger] plan1.nodes@[i as int] implies plan2.nodes@[i as int] by {
        assert(in_graph(t, roots, depth1, max_fans1, i));
        if !roots.contains(i) {
            lemma_reach_grows(t, roots, depth1, depth2, i);
        }
        assert(in_graph(t, roots, depth2, max_fans2, i));
    }
}

} // verus!
