//! Which packages the dependency graph shows and how they are connected.
//!
//! The graph starts from the explicitly installed packages that pass the
//! filter (its roots), follows dependencies for a limited number of steps,
//! hides packages that almost everything depends on, and hangs every shown
//! dependency under one parent to form the tree that is laid out.  Placing
//! the nodes on the canvas is left to the caller.

use vstd::prelude::*;

use crate::model::dep_tree::DependencyTree;
use crate::model::package::{shown_name, PackageInfo};
use crate::model::package_source::PackageSource;
use crate::text::{chars_of, lowercase_of, strs, to_lowercase};
use crate::ui::categories::{primary_category, primary_category_of};

verus! {

/// Which explicitly installed packages are roots of the graph.
#[derive(Debug, Clone, Copy, PartialEq, Eq, Structural)]
pub enum GraphFilter {
    /// Packages with a desktop name.
    DesktopApps,
    /// All of them.
    All,
    /// Those from the official repositories.
    Pacman,
    /// Those from the AUR.
    Aur,
}

/// The order of the roots.
#[derive(Debug, Clone, Copy, PartialEq, Eq, Structural)]
pub enum GraphSort {
    /// By name, ignoring letter case.
    Alphabetical,
    /// Newest first.
    InstallDate,
    /// Largest first.
    InstalledSize,
    /// Most dependencies first.
    DependencyCount,
    /// By category, then by name.
    Category,
}

impl Default for GraphFilter {
    fn default() -> (r: Self)
        ensures
            r == GraphFilter::All,
    {
        GraphFilter::All
    }
}

impl Default for GraphSort {
    fn default() -> (r: Self)
        ensures
            r == GraphSort::Alphabetical,
    {
        GraphSort::Alphabetical
    }
}

impl GraphFilter {
    /// The filter chosen at a position of the filter menu ("Desktop Apps",
    /// "All Explicit", "Pacman", "AUR"); any other position means desktop
    /// apps.
    pub fn from_menu_index(i: u32) -> (r: Self)
        ensures
            r == (if i == 1 {
                GraphFilter::All
            } else if i == 2 {
                GraphFilter::Pacman
            } else if i == 3 {
                GraphFilter::Aur
            } else {
                GraphFilter::DesktopApps
            }),
    {
        if i == 1 {
            GraphFilter::All
        } else if i == 2 {
            GraphFilter::Pacman
        } else if i == 3 {
            GraphFilter::Aur
        } else {
            GraphFilter::DesktopApps
        }
    }
}

impl GraphSort {
    /// The order chosen at a position of the sort menu ("A-Z", "Install
    /// Date", "Size", "Dependency Count", "Category"); any other position
    /// means alphabetical.
    pub fn from_menu_index(i: u32) -> (r: Self)
        ensures
            r == (if i == 1 {
                GraphSort::InstallDate
            } else if i == 2 {
                GraphSort::InstalledSize
            } else if i == 3 {
                GraphSort::DependencyCount
            } else if i == 4 {
                GraphSort::Category
            } else {
                GraphSort::Alphabetical
            }),
    {
        if i == 1 {
            GraphSort::InstallDate
        } else if i == 2 {
            GraphSort::InstalledSize
        } else if i == 3 {
            GraphSort::DependencyCount
        } else if i == 4 {
            GraphSort::Category
        } else {
            GraphSort::Alphabetical
        }
    }
}

/// Whether a package passes the source filter.
pub open spec fn passes_filter(filter: GraphFilter, p: PackageInfo) -> bool {
    match filter {
        GraphFilter::DesktopApps => p.display_name@.len() > 0,
        GraphFilter::All => true,
        GraphFilter::Pacman => p.source == PackageSource::Pacman,
        GraphFilter::Aur => p.source == PackageSource::Aur,
    }
}

/// Whether a package is a root of the graph: explicitly installed, passing
/// the filter and, when a category is chosen, of that primary category.
pub open spec fn is_root_package(filter: GraphFilter, category: Option<Seq<char>>, p: PackageInfo) -> bool {
    &&& p.is_explicit
    &&& passes_filter(filter, p)
    &&& match category {
        Some(c) => primary_category_of(strs(p.categories@)) == c,
        None => true,
    }
}

pub fn root_package(filter: GraphFilter, category: Option<&str>, p: &PackageInfo) -> (r: bool)
    ensures
        r == is_root_package(
            filter,
            match category {
                Some(c) => Some(c@),
                None => None,
            },
            *p,
        ),
{
    if !p.is_explicit {
        return false;
    }
    let passes = match filter {
        GraphFilter::DesktopApps => !p.display_name.as_str().is_empty(),
        GraphFilter::All => true,
        GraphFilter::Pacman => p.source == PackageSource::Pacman,
        GraphFilter::Aur => p.source == PackageSource::Aur,
    };
    if !passes {
        return false;
    }
    match category {
        Some(c) => crate::text::str_eq(primary_category(&p.categories), c),
        None => true,
    }
}

// ---------------------------------------------------------------------------
// Ordering the roots
// ---------------------------------------------------------------------------

/// Lexicographic order of character sequences by code point: the order of
/// `String` comparison, since UTF-8 keeps code point order.
pub open spec fn text_less(a: Seq<char>, b: Seq<char>) -> bool
    decreases a.len(),
{
    if a.len() == 0 {
        b.len() > 0
    } else if b.len() == 0 {
        false
    } else if a[0] != b[0] {
        (a[0] as u32) < (b[0] as u32)
    } else {
        text_less(a.drop_first(), b.drop_first())
    }
}

/// No text goes before itself, and of two texts at most one goes first.
pub proof fn lemma_text_less_asymmetric(a: Seq<char>, b: Seq<char>)
    ensures
        !text_less(a, a),
        !(text_less(a, b) && text_less(b, a)),
    decreases a.len(),
{
    if a.len() > 0 {
        lemma_text_less_asymmetric(a.drop_first(), a.drop_first());
        if b.len() > 0 {
            lemma_text_less_asymmetric(a.drop_first(), b.drop_first());
        }
    }
}

/// The text order is transitive.
pub proof fn lemma_text_less_transitive(a: Seq<char>, b: Seq<char>, c: Seq<char>)
    requires
        text_less(a, b),
        text_less(b, c),
    ensures
        text_less(a, c),
    decreases a.len(),
{
    if a.len() > 0 && b.len() > 0 && c.len() > 0 && a[0] == b[0] && b[0] == c[0] {
        lemma_text_less_transitive(a.drop_first(), b.drop_first(), c.drop_first());
    }
}

/// Any two different texts are ordered one way or the other.
pub proof fn lemma_text_less_total(a: Seq<char>, b: Seq<char>)
    requires
        a != b,
    ensures
        text_less(a, b) || text_less(b, a),
    decreases a.len(),
{
    if a.len() > 0 && b.len() > 0 && a[0] == b[0] {
        assert(a.drop_first() != b.drop_first()) by {
            if a.drop_first() == b.drop_first() {
                assert(a =~= seq![a[0]] + a.drop_first());
                assert(b =~= seq![b[0]] + b.drop_first());
            }
        }
        lemma_text_less_total(a.drop_first(), b.drop_first());
    }
    if a.len() == 0 && b.len() == 0 {
        assert(a =~= b);
    }
    if a.len() > 0 && b.len() > 0 && a[0] != b[0] {
        vstd::utf8::char_u32_cast(a[0], a[0] as u32);
        vstd::utf8::char_u32_cast(b[0], b[0] as u32);
        assert((a[0] as u32) != (b[0] as u32));
    }
}

/// Compares two character sequences.
pub fn chars_less(a: &Vec<char>, b: &Vec<char>) -> (r: bool)
    ensures
        r == text_less(a@, b@),
{
    let mut i: usize = 0;
    proof {
        assert(a@.skip(0) =~= a@);
        assert(b@.skip(0) =~= b@);
    }
    while i < a.len() && i < b.len() && a[i] == b[i]
        invariant
            i <= a@.len(),
            i <= b@.len(),
            text_less(a@, b@) == text_less(a@.skip(i as int), b@.skip(i as int)),
        decreases a@.len() - i,
    {
        proof {
            assert(a@.skip(i as int).drop_first() =~= a@.skip(i + 1));
            assert(b@.skip(i as int).drop_first() =~= b@.skip(i + 1));
        }
        i = i + 1;
    }
    proof {
        if i < a@.len() && i < b@.len() {
            assert(a@.skip(i as int)[0] == a@[i as int]);
            assert(b@.skip(i as int)[0] == b@[i as int]);
        }
    }
    if i == a.len() {
        i < b.len()
    } else if i == b.len() {
        false
    } else {
        (a[i] as u32) < (b[i] as u32)
    }
}

/// What the roots are ordered by.
pub struct RootKey {
    /// Position of the package in the graph.
    pub index: usize,
    /// The shown name, lower-cased.
    pub name_key: Vec<char>,
    /// The primary category.
    pub category: Vec<char>,
    pub install_date: Option<i64>,
    pub installed_size: u64,
    /// Number of declared dependencies.
    pub dep_count: usize,
}

/// A sort key as plain values.
pub struct KeyView {
    pub index: usize,
    pub name_key: Seq<char>,
    pub category: Seq<char>,
    pub install_date: Option<i64>,
    pub installed_size: u64,
    pub dep_count: nat,
}

pub open spec fn key_view(k: RootKey) -> KeyView {
    KeyView {
        index: k.index,
        name_key: k.name_key@,
        category: k.category@,
        install_date: k.install_date,
        installed_size: k.installed_size,
        dep_count: k.dep_count as nat,
    }
}

pub open spec fn key_views(ks: Seq<RootKey>) -> Seq<KeyView> {
    ks.map_values(|k: RootKey| key_view(k))
}

/// The sort key of the package at a position.
pub open spec fn key_of(index: usize, p: PackageInfo) -> KeyView {
    KeyView {
        index,
        name_key: lowercase_of(shown_name(p)),
        category: primary_category_of(strs(p.categories@)),
        install_date: p.install_date,
        installed_size: p.installed_size,
        dep_count: p.depends@.len(),
    }
}

/// Whether a later date is newer: a known date is newer than none.
pub open spec fn date_newer(a: Option<i64>, b: Option<i64>) -> bool {
    match (a, b) {
        (Some(x), Some(y)) => x > y,
        (Some(_), None) => true,
        _ => false,
    }
}

/// Whether root `a` goes strictly before root `b` in the chosen order.
pub open spec fn root_before(sort: GraphSort, a: KeyView, b: KeyView) -> bool {
    match sort {
        GraphSort::Alphabetical => text_less(a.name_key, b.name_key),
        GraphSort::InstallDate => date_newer(a.install_date, b.install_date),
        GraphSort::InstalledSize => a.installed_size > b.installed_size,
        GraphSort::DependencyCount => a.dep_count > b.dep_count,
        GraphSort::Category => text_less(a.category, b.category) || (a.category == b.category
            && text_less(a.name_key, b.name_key)),
    }
}

fn before(sort: GraphSort, a: &RootKey, b: &RootKey) -> (r: bool)
    ensures
        r == root_before(sort, key_view(*a), key_view(*b)),
{
    match sort {
        GraphSort::Alphabetical => chars_less(&a.name_key, &b.name_key),
        GraphSort::InstallDate => match (a.install_date, b.install_date) {
            (Some(x), Some(y)) => x > y,
            (Some(_), None) => true,
            _ => false,
        },
        GraphSort::InstalledSize => a.installed_size > b.installed_size,
        GraphSort::DependencyCount => a.dep_count > b.dep_count,
        GraphSort::Category => {
            if chars_less(&a.category, &b.category) {
                true
            } else if crate::text::chars_eq(&a.category, &b.category) {
                chars_less(&a.name_key, &b.name_key)
            } else {
                false
            }
        },
    }
}

/// `s` with `x` inserted after every element that `x` does not go before,
/// scanning from the end.
pub open spec fn insert_in_order(sort: GraphSort, s: Seq<KeyView>, x: KeyView) -> Seq<KeyView>
    decreases s.len(),
{
    if s.len() == 0 {
        seq![x]
    } else if root_before(sort, x, s.last()) {
        insert_in_order(sort, s.drop_last(), x).push(s.last())
    } else {
        s.push(x)
    }
}

/// The stable sort of `s`: elements that compare equal keep their order.
/// For the orders above (total preorders) this is the result of any stable
/// sort, such as `slice::sort_by`.
pub open spec fn stable_sorted(sort: GraphSort, s: Seq<KeyView>) -> Seq<KeyView>
    decreases s.len(),
{
    if s.len() == 0 {
        seq![]
    } else {
        insert_in_order(sort, stable_sorted(sort, s.drop_last()), s.last())
    }
}

/// Whether no key of `s` goes strictly before a key placed ahead of it.
pub open spec fn ordered(sort: GraphSort, s: Seq<KeyView>) -> bool {
    forall|i: int, j: int| 0 <= i < j < s.len() ==> !root_before(sort, #[trigger] s[j], #[trigger] s[i])
}

proof fn lemma_text_less_split(c: Seq<char>, a: Seq<char>, b: Seq<char>)
    requires
        text_less(c, a),
    ensures
        text_less(c, b) || text_less(b, a),
{
    if b != c && b != a {
        lemma_text_less_total(b, c);
        if text_less(b, c) {
            lemma_text_less_transitive(b, c, a);
        }
    }
}

proof fn lemma_before_asymmetric(sort: GraphSort, a: KeyView, b: KeyView)
    ensures
        !(root_before(sort, a, b) && root_before(sort, b, a)),
{
    lemma_text_less_asymmetric(a.name_key, b.name_key);
    lemma_text_less_asymmetric(a.category, b.category);
    lemma_text_less_asymmetric(a.category, a.category);
}

/// If `c` goes before `a`, then any `b` goes after `c` or before `a`.
proof fn lemma_before_split(sort: GraphSort, c: KeyView, a: KeyView, b: KeyView)
    requires
        root_before(sort, c, a),
    ensures
        root_before(sort, c, b) || root_before(sort, b, a),
{
    match sort {
        GraphSort::Alphabetical => {
            lemma_text_less_split(c.name_key, a.name_key, b.name_key);
        },
        GraphSort::Category => {
            if text_less(c.category, a.category) {
                lemma_text_less_split(c.category, a.category, b.category);
                if b.category == c.category {
                    assert(text_less(b.category, a.category));
                } else if b.category == a.category {
                    assert(text_less(c.category, b.category));
                }
            } else {
                if b.category != c.category {
                    lemma_text_less_total(b.category, c.category);
                } else {
                    lemma_text_less_split(c.name_key, a.name_key, b.name_key);
                }
            }
        },
        _ => {},
    }
}

proof fn lemma_insert_keeps(sort: GraphSort, s: Seq<KeyView>, x: KeyView)
    ensures
        insert_in_order(sort, s, x).to_multiset() =~= s.to_multiset().insert(x),
    decreases s.len(),
{
    broadcast use vstd::seq_lib::group_to_multiset_ensures;
    if s.len() == 0 {
        assert(seq![x] =~= Seq::<KeyView>::empty().push(x));
        assert(s =~= Seq::<KeyView>::empty());
    } else {
        assert(s =~= s.drop_last().push(s.last()));
        if root_before(sort, x, s.last()) {
            lemma_insert_keeps(sort, s.drop_last(), x);
        }
    }
}

proof fn lemma_insert_ordered(sort: GraphSort, s: Seq<KeyView>, x: KeyView)
    requires
        ordered(sort, s),
    ensures
        ordered(sort, insert_in_order(sort, s, x)),
    decreases s.len(),
{
    broadcast use vstd::seq_lib::group_to_multiset_ensures;
    if s.len() > 0 {
        let last = s.last();
        let dl = s.drop_last();
        let n = s.len() - 1;
        assert(ordered(sort, dl)) by {
            assert forall|i: int, j: int| 0 <= i < j < dl.len() implies !root_before(sort, #[trigger] dl[j], #[trigger] dl[i]) by {
                assert(dl[i] == s[i] && dl[j] == s[j]);
            }
        }
        if root_before(sort, x, last) {
            let ins = insert_in_order(sort, dl, x);
            lemma_insert_ordered(sort, dl, x);
            lemma_insert_keeps(sort, dl, x);
            let r = ins.push(last);
            assert forall|i: int, j: int| 0 <= i < j < r.len() implies !root_before(sort, #[trigger] r[j], #[trigger] r[i]) by {
                if j < ins.len() {
                    assert(r[i] == ins[i] && r[j] == ins[j]);
                } else {
                    let e = ins[i];
                    assert(r[i] == e);
                    assert(ins.contains(e));
                    assert(ins.to_multiset().count(e) > 0);
                    if e == x {
                        lemma_before_asymmetric(sort, x, last);
                    } else {
                        assert(dl.to_multiset().count(e) > 0);
                        assert(dl.contains(e));
                        let k = choose|k: int| 0 <= k < dl.len() && dl[k] == e;
                        assert(s[k] == e && s[n] == last);
                    }
                }
            }
        } else {
            let r = s.push(x);
            assert forall|i: int, j: int| 0 <= i < j < r.len() implies !root_before(sort, #[trigger] r[j], #[trigger] r[i]) by {
                if j < s.len() {
                    assert(r[i] == s[i] && r[j] == s[j]);
                } else {
                    assert(r[j] == x && r[i] == s[i]);
                    if root_before(sort, x, s[i]) {
                        lemma_before_split(sort, x, s[i], last);
                        if i < n {
                            assert(s[n] == last);
                        }
                    }
                }
            }
        }
    }
}

/// The root order is a sort: the keys come out ordered (no key goes
/// strictly before one placed ahead of it), and they are the keys given,
/// each as often as given.
pub proof fn lemma_roots_sorted(sort: GraphSort, s: Seq<KeyView>)
    ensures
        ordered(sort, stable_sorted(sort, s)),
        stable_sorted(sort, s).to_multiset() =~= s.to_multiset(),
    decreases s.len(),
{
    broadcast use vstd::seq_lib::group_to_multiset_ensures;
    if s.len() > 0 {
        lemma_roots_sorted(sort, s.drop_last());
        lemma_insert_ordered(sort, stable_sorted(sort, s.drop_last()), s.last());
        lemma_insert_keeps(sort, stable_sorted(sort, s.drop_last()), s.last());
        assert(s =~= s.drop_last().push(s.last()));
    } else {
        assert(s =~= Seq::<KeyView>::empty());
    }
}

fn insert_key(sort: GraphSort, out: &mut Vec<RootKey>, x: RootKey)
    ensures
        key_views(final(out)@) == insert_in_order(sort, key_views(old(out)@), key_view(x)),
{
    let ghost xv = key_view(x);
    let ghost vs = key_views(out@);
    let mut j: usize = out.len();
    proof {
        assert(vs.take(j as int) =~= vs);
        assert(vs.skip(j as int) =~= Seq::<KeyView>::empty());
    }
    while j > 0 && before(sort, &x, &out[j - 1])
        invariant
            j <= out@.len(),
            vs == key_views(out@),
            xv == key_view(x),
            insert_in_order(sort, vs, xv) == insert_in_order(sort, vs.take(j as int), xv) + vs.skip(j as int),
        decreases j,
    {
        proof {
            let t = vs.take(j as int);
            assert(t.last() == vs[j - 1]);
            assert(vs[j - 1] == key_view(out@[j - 1]));
            assert(t.drop_last() =~= vs.take(j - 1));
            assert(vs.skip(j - 1) =~= seq![vs[j - 1]] + vs.skip(j as int));
            assert(insert_in_order(sort, t, xv) == insert_in_order(sort, vs.take(j - 1), xv).push(vs[j - 1]));
            assert(insert_in_order(sort, t, xv) + vs.skip(j as int) =~= insert_in_order(sort, vs.take(j - 1), xv)
                + vs.skip(j - 1));
        }
        j = j - 1;
    }
    proof {
        if j > 0 {
            assert(vs.take(j as int).last() == vs[j - 1]);
            assert(vs[j - 1] == key_view(out@[j - 1]));
        } else {
            assert(vs.take(0) =~= Seq::<KeyView>::empty());
        }
    }
    out.insert(j, x);
    proof {
        assert(key_views(out@) =~= insert_in_order(sort, vs.take(j as int), xv) + vs.skip(j as int));
    }
}

/// Sorts keys stably.
pub fn sort_keys(sort: GraphSort, keys: Vec<RootKey>) -> (r: Vec<RootKey>)
    ensures
        key_views(r@) == stable_sorted(sort, key_views(keys@)),
{
    let mut out: Vec<RootKey> = Vec::new();
    let mut rest = keys;
    let ghost all = key_views(rest@);
    let mut taken: Vec<RootKey> = Vec::new();
    let ghost n = all.len();
    // Move the keys out in reverse, then insert them in the order given.
    while rest.len() > 0
        invariant
            all.len() == n,
            rest@.len() + taken@.len() == n,
            key_views(rest@) == all.take(rest@.len() as int),
            forall|k: int| 0 <= k < taken@.len() ==> key_view(#[trigger] taken@[k]) == all[n - 1 - k],
        decreases rest@.len(),
    {
        let ghost before_pop = rest@;
        let x = rest.pop().unwrap();
        proof {
            assert(before_pop == rest@.push(x));
            assert(key_views(before_pop)[before_pop.len() - 1] == key_view(x));
            assert(key_views(rest@) =~= all.take(rest@.len() as int));
        }
        taken.push(x);
    }
    proof {
        assert(stable_sorted(sort, all.take(0)) =~= key_views(out@));
        assert(taken@.len() == n);
    }
    let taken_len = taken.len();
    proof {
        assert(taken_len == n);
    }
    let mut i: usize = 0;
    while taken.len() > 0
        invariant
            all.len() == n,
            n <= usize::MAX,
            i + taken@.len() == n,
            forall|k: int| 0 <= k < taken@.len() ==> key_view(#[trigger] taken@[k]) == all[n - 1 - k],
            key_views(out@) == stable_sorted(sort, all.take(i as int)),
        decreases taken@.len(),
    {
        let ghost before_pop = taken@;
        let x = taken.pop().unwrap();
        proof {
            assert(before_pop == taken@.push(x));
            assert(key_view(before_pop[before_pop.len() - 1]) == all[n - 1 - (before_pop.len() - 1)]);
            assert(key_view(x) == all[i as int]);
            assert(all.take(i + 1).drop_last() =~= all.take(i as int));
            assert(all.take(i + 1).last() == key_view(x));
        }
        insert_key(sort, &mut out, x);
        i = i + 1;
    }
    proof {
        assert(all.take(n as int) =~= all);
    }
    out
}

/// The sort key of a package.
pub fn root_key(index: usize, p: &PackageInfo) -> (k: RootKey)
    ensures
        key_view(k) == key_of(index, *p),
{
    let shown = p.display_label();
    let lower = to_lowercase(shown.as_str());
    RootKey {
        index,
        name_key: chars_of(lower.as_str()),
        category: chars_of(primary_category(&p.categories)),
        install_date: p.install_date,
        installed_size: p.installed_size,
        dep_count: p.depends.len(),
    }
}

} // verus!
