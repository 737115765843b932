//! The dependency graph over all scanned packages.

use vstd::prelude::*;

use crate::model::package::{clone_strings, derefs, qid, same_info, PackageInfo};
use crate::text::strs;

verus! {

/// Packages indexed by qualified id, with forward (depends on) and reverse
/// (depended on by) edges.
///
/// Entries are kept in parallel vectors: `packages[i]` has id `ids[i]`,
/// depends on the packages at the indices in `depends_on[i]` and is depended
/// on by the packages at the indices in `depended_by[i]`.  An id with no
/// reverse edges has an empty list.
pub struct DependencyTree {
    packages: Vec<PackageInfo>,
    ids: Vec<String>,
    depends_on: Vec<Vec<usize>>,
    depended_by: Vec<Vec<usize>>,
}

/// Every index in `s` is below `n`.
pub open spec fn indices_below(s: Seq<usize>, n: int) -> bool {
    forall|k: int| 0 <= k < s.len() ==> #[trigger] s[k] < n
}

impl DependencyTree {
    /// Number of packages in the graph.
    pub closed spec fn len(&self) -> nat {
        self.packages@.len()
    }

    /// The packages, in graph order.
    pub closed spec fn infos(&self) -> Seq<PackageInfo> {
        self.packages@
    }

    /// The package at position `i`.
    pub closed spec fn info_at(&self, i: int) -> PackageInfo {
        self.packages@[i]
    }

    /// The qualified id of the package at position `i`.
    pub closed spec fn id_at(&self, i: int) -> Seq<char> {
        self.ids@[i]@
    }

    /// Positions of the packages that package `i` depends on.
    pub closed spec fn forward_at(&self, i: int) -> Seq<usize> {
        self.depends_on@[i]@
    }

    /// Positions of the packages that depend on package `i`.
    pub closed spec fn reverse_at(&self, i: int) -> Seq<usize> {
        self.depended_by@[i]@
    }

    /// The structural invariant of the graph.
    pub closed spec fn wf(&self) -> bool {
        &&& self.ids@.len() == self.packages@.len()
        &&& self.depends_on@.len() == self.packages@.len()
        &&& self.depended_by@.len() == self.packages@.len()
        &&& forall|i: int| 0 <= i < self.len() ==> #[trigger] self.id_at(i) == qid(self.info_at(i))
        &&& forall|i: int, j: int|
            0 <= i < self.len() && 0 <= j < self.len() && i != j ==> #[trigger] self.id_at(i)
                != #[trigger] self.id_at(j)
        &&& forall|i: int| 0 <= i < self.len() ==> indices_below(#[trigger] self.forward_at(i), self.len() as int)
        &&& forall|i: int| 0 <= i < self.len() ==> indices_below(#[trigger] self.reverse_at(i), self.len() as int)
    }

    /// Whether some package has qualified id `id`.
    pub open spec fn has_id(&self, id: Seq<char>) -> bool {
        exists|i: int| 0 <= i < self.len() && #[trigger] self.id_at(i) == id
    }

    /// The ids of a list of positions.
    pub open spec fn ids_of(&self, idx: Seq<usize>) -> Seq<Seq<char>> {
        idx.map_values(|t: usize| self.id_at(t as int))
    }

    /// The packages at a list of positions.
    pub open spec fn infos_of(&self, idx: Seq<usize>) -> Seq<PackageInfo> {
        idx.map_values(|t: usize| self.info_at(t as int))
    }

    /// The ids of the packages that package `i` depends on.
    pub open spec fn deps_of(&self, i: int) -> Seq<Seq<char>> {
        self.ids_of(self.forward_at(i))
    }

    /// The ids of the packages that depend on package `i`.
    pub open spec fn parents_at(&self, i: int) -> Seq<Seq<char>> {
        self.ids_of(self.reverse_at(i))
    }

    /// An empty graph.
    pub fn new() -> (t: Self)
        ensures
            t.wf(),
            t.len() == 0,
    {
        DependencyTree {
            packages: Vec::new(),
            ids: Vec::new(),
            depends_on: Vec::new(),
            depended_by: Vec::new(),
        }
    }

    /// The position of the package with qualified id `id`.
    pub fn find(&self, id: &str) -> (r: Option<usize>)
        requires
            self.wf(),
        ensures
            match r {
                Some(i) => i < self.len() && self.id_at(i as int) == id@,
                None => !self.has_id(id@),
            },
    {
        let key: String = id.to_owned();
        let mut i: usize = 0;
        while i < self.ids.len()
            invariant
                self.wf(),
                i <= self.len(),
                key@ == id@,
                forall|k: int| 0 <= k < i ==> self.id_at(k) != id@,
            decreases self.len() - i,
        {
            if self.ids[i] == key {
                return Some(i);
            }
            i = i + 1;
        }
        None
    }

    /// The package with qualified id `id`, if any.
    pub fn get(&self, id: &str) -> (r: Option<&PackageInfo>)
        requires
            self.wf(),
        ensures
            match r {
                Some(p) => exists|i: int|
                    0 <= i < self.len() && #[trigger] self.id_at(i) == id@ && *p == self.info_at(i),
                None => !self.has_id(id@),
            },
    {
        match self.find(id) {
            Some(i) => Some(&self.packages[i]),
            None => None,
        }
    }

    /// All packages, each once.
    pub fn all_packages(&self) -> (r: &Vec<PackageInfo>)
        ensures
            r@ == self.infos(),
            r@.len() == self.len(),
            forall|i: int| 0 <= i < self.len() ==> r@[i] == #[trigger] self.info_at(i),
    {
        &self.packages
    }

    /// The explicitly installed packages: the roots of the graph.
    pub fn root_packages(&self) -> (r: Vec<&PackageInfo>)
        ensures
            derefs(r@) == self.infos().filter(|p: PackageInfo| p.is_explicit),
    {
        let mut r: Vec<&PackageInfo> = Vec::new();
        let mut i: usize = 0;
        while i < self.packages.len()
            invariant
                i <= self.packages.len(),
                derefs(r@) == self.packages@.take(i as int).filter(|p: PackageInfo| p.is_explicit),
            decreases self.packages.len() - i,
        {
            proof {
                reveal_with_fuel(Seq::filter, 1);
                assert(self.packages@.take(i + 1).drop_last() =~= self.packages@.take(i as int));
            }
            if self.packages[i].is_explicit {
                r.push(&self.packages[i]);
            }
            i = i + 1;
        }
        proof {
            assert(self.packages@.take(self.packages@.len() as int) =~= self.packages@);
        }
        r
    }

    /// References to the packages at the given positions.
    fn infos_at(&self, idx: &Vec<usize>) -> (r: Vec<&PackageInfo>)
        requires
            self.wf(),
            indices_below(idx@, self.len() as int),
        ensures
            derefs(r@) == self.infos_of(idx@),
    {
        let mut r: Vec<&PackageInfo> = Vec::new();
        let mut k: usize = 0;
        while k < idx.len()
            invariant
                self.wf(),
                indices_below(idx@, self.len() as int),
                k <= idx.len(),
                derefs(r@) == self.infos_of(idx@.take(k as int)),
            decreases idx.len() - k,
        {
            let t = idx[k];
            proof {
                assert(idx@[k as int] < self.len());
            }
            let ghost prev = r@;
            r.push(&self.packages[t]);
            proof {
                assert(derefs(r@) =~= derefs(prev).push(self.info_at(t as int)));
                assert(idx@.take(k + 1) =~= idx@.take(k as int).push(t));
                assert(self.infos_of(idx@.take(k + 1)) =~= self.infos_of(idx@.take(k as int)).push(
                    self.info_at(t as int),
                ));
            }
            k = k + 1;
        }
        proof {
            assert(idx@.take(idx@.len() as int) =~= idx@);
        }
        r
    }

    /// The direct dependencies of the package with id `id`.
    pub fn children_of(&self, id: &str) -> (r: Vec<&PackageInfo>)
        requires
            self.wf(),
        ensures
            !self.has_id(id@) ==> r@.len() == 0,
            forall|i: int|
                0 <= i < self.len() && #[trigger] self.id_at(i) == id@ ==> derefs(r@) == self.infos_of(
                    self.forward_at(i),
                ),
    {
        match self.find(id) {
            Some(i) => {
                proof {
                    assert(indices_below(self.forward_at(i as int), self.len() as int));
                }
                self.infos_at(&self.depends_on[i])
            },
            None => Vec::new(),
        }
    }

    /// The packages that depend on the package with id `id`.
    pub fn parents_of(&self, id: &str) -> (r: Vec<&PackageInfo>)
        requires
            self.wf(),
        ensures
            !self.has_id(id@) ==> r@.len() == 0,
            forall|i: int|
                0 <= i < self.len() && #[trigger] self.id_at(i) == id@ ==> derefs(r@) == self.infos_of(
                    self.reverse_at(i),
                ),
    {
        match self.find(id) {
            Some(i) => {
                proof {
                    assert(indices_below(self.reverse_at(i as int), self.len() as int));
                }
                self.infos_at(&self.depended_by[i])
            },
            None => Vec::new(),
        }
    }

    /// The positions of the packages that package `i` depends on.
    pub fn forward(&self, i: usize) -> (r: &Vec<usize>)
        requires
            self.wf(),
            i < self.len(),
        ensures
            r@ == self.forward_at(i as int),
    {
        &self.depends_on[i]
    }

    /// The positions of the packages that depend on package `i`.
    pub fn reverse(&self, i: usize) -> (r: &Vec<usize>)
        requires
            self.wf(),
            i < self.len(),
        ensures
            r@ == self.reverse_at(i as int),
    {
        &self.depended_by[i]
    }

    /// The qualified id of package `i`.
    pub fn id(&self, i: usize) -> (r: &String)
        requires
            self.wf(),
            i < self.len(),
        ensures
            r@ == self.id_at(i as int),
    {
        &self.ids[i]
    }

    /// The package at position `i`.
    pub fn info(&self, i: usize) -> (r: &PackageInfo)
        requires
            self.wf(),
            i < self.len(),
        ensures
            *r == self.info_at(i as int),
    {
        &self.packages[i]
    }

    /// Facts that follow from well-formedness.
    pub proof fn lemma_wf(&self)
        requires
            self.wf(),
        ensures
            forall|i: int| 0 <= i < self.len() ==> indices_below(#[trigger] self.forward_at(i), self.len() as int),
            forall|i: int| 0 <= i < self.len() ==> indices_below(#[trigger] self.reverse_at(i), self.len() as int),
            forall|i: int, j: int|
                0 <= i < self.len() && 0 <= j < self.len() && i != j ==> #[trigger] self.id_at(i)
                    != #[trigger] self.id_at(j),
            forall|i: int| 0 <= i < self.len() ==> #[trigger] self.id_at(i) == qid(self.info_at(i)),
            self.len() <= usize::MAX,
    {
        assert(vstd::std_specs::vec::spec_vec_len(&self.packages) == self.packages@.len());
    }

    pub fn package_count(&self) -> (r: usize)
        ensures
            r == self.len(),
    {
        self.packages.len()
    }
}


// ---------------------------------------------------------------------------
// Building the graph
// ---------------------------------------------------------------------------

/// The position of the last package in `pkgs` whose qualified id is `k`, or -1.
pub open spec fn last_with_id(pkgs: Seq<PackageInfo>, k: Seq<char>) -> int
    decreases pkgs.len(),
{
    if pkgs.len() == 0 {
        -1
    } else if qid(pkgs.last()) == k {
        pkgs.len() - 1
    } else {
        last_with_id(pkgs.drop_last(), k)
    }
}

pub proof fn lemma_last_with_id_found(pkgs: Seq<PackageInfo>, i: int)
    requires
        0 <= i < pkgs.len(),
    ensures
        i <= last_with_id(pkgs, qid(pkgs[i])) < pkgs.len(),
        qid(pkgs[last_with_id(pkgs, qid(pkgs[i]))]) == qid(pkgs[i]),
    decreases pkgs.len(),
{
    if i < pkgs.len() - 1 && qid(pkgs.last()) != qid(pkgs[i]) {
        lemma_last_with_id_found(pkgs.drop_last(), i);
    }
}

/// Distinct positions hold distinct ids.
pub open spec fn ids_unique(ids: Seq<String>) -> bool {
    forall|i: int, j: int|
        0 <= i < ids.len() && 0 <= j < ids.len() && i != j ==> #[trigger] ids[i]@ != #[trigger] ids[j]@
}

/// Looks `key` up among `ids`.
fn position_of(ids: &Vec<String>, key: &String) -> (r: Option<usize>)
    ensures
        match r {
            Some(i) => i < ids@.len() && ids@[i as int]@ == key@,
            None => forall|i: int| 0 <= i < ids@.len() ==> #[trigger] ids@[i]@ != key@,
        },
{
    let mut i: usize = 0;
    while i < ids.len()
        invariant
            i <= ids.len(),
            forall|k: int| 0 <= k < i ==> #[trigger] ids@[k]@ != key@,
        decreases ids.len() - i,
    {
        if ids[i] == *key {
            return Some(i);
        }
        i = i + 1;
    }
    None
}

/// One entry per distinct qualified id, holding the last package with that
/// id; `slot[i]` is the entry of input package `i`.
struct Deduped {
    packages: Vec<PackageInfo>,
    ids: Vec<String>,
    slot: Vec<usize>,
}

fn dedupe(pkgs: &Vec<PackageInfo>) -> (r: Deduped)
    ensures
        r.packages@.len() == r.ids@.len(),
        r.slot@.len() == pkgs@.len(),
        ids_unique(r.ids@),
        forall|j: int| 0 <= j < r.ids@.len() ==> #[trigger] r.ids@[j]@ == qid(r.packages@[j]),
        forall|i: int|
            0 <= i < pkgs@.len() ==> #[trigger] r.slot@[i] < r.ids@.len() && r.ids@[r.slot@[i] as int]@
                == qid(pkgs@[i]),
        forall|j: int|
            0 <= j < r.ids@.len() ==> {
                let l = last_with_id(pkgs@, #[trigger] r.ids@[j]@);
                0 <= l < pkgs@.len() && same_info(r.packages@[j], pkgs@[l])
            },
{
    let mut packages: Vec<PackageInfo> = Vec::new();
    let mut ids: Vec<String> = Vec::new();
    let mut slot: Vec<usize> = Vec::new();
    let mut i: usize = 0;
    while i < pkgs.len()
        invariant
            i <= pkgs.len(),
            packages@.len() == ids@.len(),
            slot@.len() == i,
            ids_unique(ids@),
            forall|j: int| 0 <= j < ids@.len() ==> #[trigger] ids@[j]@ == qid(packages@[j]),
            forall|k: int|
                0 <= k < i ==> #[trigger] slot@[k] < ids@.len() && ids@[slot@[k] as int]@ == qid(
                    pkgs@[k],
                ),
            forall|j: int|
                0 <= j < ids@.len() ==> {
                    let l = last_with_id(pkgs@.take(i as int), #[trigger] ids@[j]@);
                    0 <= l < i && same_info(packages@[j], pkgs@[l])
                },
        decreases pkgs.len() - i,
    {
        let id = pkgs[i].qualified_id();
        let copy = pkgs[i].clone();
        let ghost pre = pkgs@.take(i as int);
        let ghost post = pkgs@.take(i + 1);
        proof {
            assert(post.drop_last() =~= pre);
            assert(post.last() == pkgs@[i as int]);
        }
        match position_of(&ids, &id) {
            Some(k) => {
                packages.set(k, copy);
                proof {
                    assert forall|j: int| 0 <= j < ids@.len() implies {
                        let l = last_with_id(post, #[trigger] ids@[j]@);
                        0 <= l < i + 1 && same_info(packages@[j], pkgs@[l])
                    } by {
                        if j == k {
                            assert(last_with_id(post, ids@[j]@) == i);
                        } else {
                            assert(ids@[j]@ != id@);
                            assert(last_with_id(post, ids@[j]@) == last_with_id(pre, ids@[j]@));
                        }
                    }
                }
                slot.push(k);
            },
            None => {
                let ghost old_ids = ids@;
                let n = ids.len();
                packages.push(copy);
                ids.push(id);
                proof {
                    assert forall|j: int| 0 <= j < ids@.len() implies {
                        let l = last_with_id(post, #[trigger] ids@[j]@);
                        0 <= l < i + 1 && same_info(packages@[j], pkgs@[l])
                    } by {
                        if j == n {
                            assert(last_with_id(post, ids@[j]@) == i);
                        } else {
                            assert(old_ids[j] == ids@[j]);
                            assert(ids@[j]@ != ids@[n as int]@);
                            assert(last_with_id(post, ids@[j]@) == last_with_id(pre, ids@[j]@));
                        }
                    }
                }
                slot.push(n);
            },
        }
        i = i + 1;
    }
    proof {
        assert(pkgs@.take(pkgs@.len() as int) =~= pkgs@);
    }
    Deduped { packages, ids, slot }
}


/// Adds each virtual name of `provs` that is not yet known, pointing at `id`.
pub open spec fn add_provides(
    m: Map<Seq<char>, Seq<char>>,
    provs: Seq<Seq<char>>,
    id: Seq<char>,
) -> Map<Seq<char>, Seq<char>>
    decreases provs.len(),
{
    if provs.len() == 0 {
        m
    } else {
        let m0 = add_provides(m, provs.drop_last(), id);
        if m0.dom().contains(provs.last()) {
            m0
        } else {
            m0.insert(provs.last(), id)
        }
    }
}

/// The name lookup table: every package name points at the id of the last
/// package of that name; a virtual name (from `provides`) points at the
/// first package that provided it, unless a real package name took it.
pub open spec fn name_table(pkgs: Seq<PackageInfo>) -> Map<Seq<char>, Seq<char>>
    decreases pkgs.len(),
{
    if pkgs.len() == 0 {
        Map::empty()
    } else {
        let p = pkgs.last();
        add_provides(
            name_table(pkgs.drop_last()).insert(p.name@, qid(p)),
            strs(p.provides@),
            qid(p),
        )
    }
}

/// The ids that a package's dependency names resolve to, in order, leaving
/// out names that do not resolve and the package itself.
pub open spec fn forward_ids(
    table: Map<Seq<char>, Seq<char>>,
    deps: Seq<Seq<char>>,
    self_id: Seq<char>,
) -> Seq<Seq<char>>
    decreases deps.len(),
{
    if deps.len() == 0 {
        seq![]
    } else {
        let r = forward_ids(table, deps.drop_last(), self_id);
        let d = deps.last();
        if table.dom().contains(d) && table[d] != self_id {
            r.push(table[d])
        } else {
            r
        }
    }
}

/// The ids that a list of names resolves to, in order, leaving out names
/// that do not resolve.
pub open spec fn resolve_all(table: Map<Seq<char>, Seq<char>>, names: Seq<Seq<char>>) -> Seq<
    Seq<char>,
>
    decreases names.len(),
{
    if names.len() == 0 {
        seq![]
    } else {
        let r = resolve_all(table, names.drop_last());
        if table.dom().contains(names.last()) {
            r.push(table[names.last()])
        } else {
            r
        }
    }
}

/// The declared reverse dependencies ("Required By") of the packages with
/// id `k`, resolved and concatenated in input order.
pub open spec fn required_parents(
    pkgs: Seq<PackageInfo>,
    table: Map<Seq<char>, Seq<char>>,
    k: Seq<char>,
) -> Seq<Seq<char>>
    decreases pkgs.len(),
{
    if pkgs.len() == 0 {
        seq![]
    } else {
        let r = required_parents(pkgs.drop_last(), table, k);
        if qid(pkgs.last()) == k {
            r + resolve_all(table, strs(pkgs.last().required_by@))
        } else {
            r
        }
    }
}

/// The map that a list of (name, position) insertions builds, later
/// insertions replacing earlier ones.
spec fn entries_map(e: Seq<(String, usize)>, ids: Seq<String>) -> Map<Seq<char>, Seq<char>>
    decreases e.len(),
{
    if e.len() == 0 {
        Map::empty()
    } else {
        entries_map(e.drop_last(), ids).insert(e.last().0@, ids[e.last().1 as int]@)
    }
}

proof fn lemma_entries_lookup(e: Seq<(String, usize)>, ids: Seq<String>, k: Seq<char>, p: int)
    requires
        -1 <= p < e.len(),
        forall|q: int| p < q < e.len() ==> (#[trigger] e[q]).0@ != k,
        p >= 0 ==> e[p].0@ == k,
    ensures
        p >= 0 ==> entries_map(e, ids).dom().contains(k) && entries_map(e, ids)[k]
            == ids[e[p].1 as int]@,
        p < 0 ==> !entries_map(e, ids).dom().contains(k),
    decreases e.len(),
{
    if e.len() > 0 && p < e.len() - 1 {
        assert forall|q: int| p < q < e.len() - 1 implies (#[trigger] e.drop_last()[q]).0@ != k by {
            assert(e.drop_last()[q] == e[q]);
        }
        lemma_entries_lookup(e.drop_last(), ids, k, p);
    }
}

/// The last entry with name `key`.
fn last_entry(e: &Vec<(String, usize)>, key: &String) -> (r: Option<usize>)
    ensures
        match r {
            Some(p) => p < e@.len() && e@[p as int].0@ == key@ && forall|q: int|
                p < q < e@.len() ==> (#[trigger] e@[q]).0@ != key@,
            None => forall|q: int| 0 <= q < e@.len() ==> (#[trigger] e@[q]).0@ != key@,
        },
{
    let mut j = e.len();
    while j > 0
        invariant
            j <= e@.len(),
            forall|q: int| j <= q < e@.len() ==> (#[trigger] e@[q]).0@ != key@,
        decreases j,
    {
        if e[j - 1].0 == *key {
            return Some(j - 1);
        }
        j = j - 1;
    }
    None
}

/// The name lookup table as (name, position) insertions.
struct NameTable {
    entries: Vec<(String, usize)>,
}

impl NameTable {
    spec fn view_with(&self, ids: Seq<String>) -> Map<Seq<char>, Seq<char>> {
        entries_map(self.entries@, ids)
    }

    spec fn targets_below(&self, n: int) -> bool {
        forall|q: int| 0 <= q < self.entries@.len() ==> (#[trigger] self.entries@[q]).1 < n
    }

    /// The position that `key` resolves to.
    fn lookup(&self, key: &String, Ghost(ids): Ghost<Seq<String>>) -> (r: Option<usize>)
        requires
            self.targets_below(ids.len() as int),
        ensures
            match r {
                Some(t) => t < ids.len() && self.view_with(ids).dom().contains(key@)
                    && self.view_with(ids)[key@] == ids[t as int]@,
                None => !self.view_with(ids).dom().contains(key@),
            },
    {
        match last_entry(&self.entries, key) {
            Some(p) => {
                proof {
                    lemma_entries_lookup(self.entries@, ids, key@, p as int);
                }
                Some(self.entries[p].1)
            },
            None => {
                proof {
                    lemma_entries_lookup(self.entries@, ids, key@, -1);
                }
                None
            },
        }
    }
}

fn build_name_table(pkgs: &Vec<PackageInfo>, d: &Deduped) -> (r: NameTable)
    requires
        d.slot@.len() == pkgs@.len(),
        forall|i: int|
            0 <= i < pkgs@.len() ==> #[trigger] d.slot@[i] < d.ids@.len() && d.ids@[d.slot@[i] as int]@
                == qid(pkgs@[i]),
    ensures
        r.targets_below(d.ids@.len() as int),
        r.view_with(d.ids@) == name_table(pkgs@),
{
    let mut t = NameTable { entries: Vec::new() };
    let ghost ids = d.ids@;
    let mut i: usize = 0;
    while i < pkgs.len()
        invariant
            i <= pkgs@.len(),
            ids == d.ids@,
            d.slot@.len() == pkgs@.len(),
            forall|i: int|
                0 <= i < pkgs@.len() ==> #[trigger] d.slot@[i] < d.ids@.len() && d.ids@[d.slot@[
                    i] as int]@ == qid(pkgs@[i]),
            t.targets_below(ids.len() as int),
            t.view_with(ids) == name_table(pkgs@.take(i as int)),
        decreases pkgs@.len() - i,
    {
        let p = &pkgs[i];
        let k = d.slot[i];
        let ghost pre = pkgs@.take(i as int);
        proof {
            assert(pkgs@.take(i + 1).drop_last() =~= pre);
            assert(pkgs@.take(i + 1).last() == *p);
            assert(ids[k as int]@ == qid(*p));
        }
        let ghost e0 = t.entries@;
        t.entries.push((p.name.clone(), k));
        proof {
            assert(t.entries@.drop_last() =~= e0);
        }
        let ghost base = name_table(pre).insert(p.name@, qid(*p));
        let provs = &p.provides;
        let mut m: usize = 0;
        proof {
            assert(strs(provs@).take(0) =~= Seq::<Seq<char>>::empty());
        }
        while m < provs.len()
            invariant
                m <= provs@.len(),
                k < ids.len(),
                ids[k as int]@ == qid(*p),
                t.targets_below(ids.len() as int),
                t.view_with(ids) == add_provides(base, strs(provs@).take(m as int), qid(*p)),
            decreases provs@.len() - m,
        {
            let name = &provs[m];
            proof {
                assert(strs(provs@).take(m + 1).drop_last() =~= strs(provs@).take(m as int));
                assert(strs(provs@).take(m + 1).last() == name@);
                assert(strs(provs@).take(m + 1).len() == m + 1);
            }
            match t.lookup(name, Ghost(ids)) {
                Some(_) => {},
                None => {
                    let ghost e1 = t.entries@;
                    t.entries.push((name.clone(), k));
                    proof {
                        assert(t.entries@.drop_last() =~= e1);
                    }
                },
            }
            m = m + 1;
        }
        proof {
            assert(strs(provs@).take(provs@.len() as int) =~= strs(provs@));
        }
        i = i + 1;
    }
    proof {
        assert(pkgs@.take(pkgs@.len() as int) =~= pkgs@);
    }
    t
}


/// The ids held at a list of positions.
pub open spec fn idx_ids(ids: Seq<String>, idx: Seq<usize>) -> Seq<Seq<char>> {
    idx.map_values(|x: usize| ids[x as int]@)
}

proof fn lemma_idx_ids_push(ids: Seq<String>, idx: Seq<usize>, x: usize)
    ensures
        idx_ids(ids, idx.push(x)) == idx_ids(ids, idx).push(ids[x as int]@),
{
    assert(idx_ids(ids, idx.push(x)) =~= idx_ids(ids, idx).push(ids[x as int]@));
}

/// The forward edges: for each entry, the positions its dependency names
/// resolve to.
fn forward_edges(d: &Deduped, t: &NameTable) -> (r: Vec<Vec<usize>>)
    requires
        ids_unique(d.ids@),
        d.packages@.len() == d.ids@.len(),
        forall|j: int| 0 <= j < d.ids@.len() ==> #[trigger] d.ids@[j]@ == qid(d.packages@[j]),
        t.targets_below(d.ids@.len() as int),
    ensures
        r@.len() == d.ids@.len(),
        forall|j: int| 0 <= j < r@.len() ==> indices_below(#[trigger] r@[j]@, d.ids@.len() as int),
        forall|j: int|
            0 <= j < r@.len() ==> idx_ids(d.ids@, #[trigger] r@[j]@) == forward_ids(
                t.view_with(d.ids@),
                strs(d.packages@[j].depends@),
                d.ids@[j]@,
            ),
{
    let ghost ids = d.ids@;
    let ghost table = t.view_with(ids);
    let n = d.ids.len();
    let mut r: Vec<Vec<usize>> = Vec::new();
    let mut j: usize = 0;
    while j < n
        invariant
            n == ids.len(),
            ids == d.ids@,
            table == t.view_with(ids),
            ids_unique(ids),
            d.packages@.len() == n,
            t.targets_below(n as int),
            j <= n,
            r@.len() == j,
            forall|x: int| 0 <= x < j ==> indices_below(#[trigger] r@[x]@, n as int),
            forall|x: int|
                0 <= x < j ==> idx_ids(ids, #[trigger] r@[x]@) == forward_ids(
                    table,
                    strs(d.packages@[x].depends@),
                    ids[x]@,
                ),
        decreases n - j,
    {
        let deps = &d.packages[j].depends;
        let ghost names = strs(deps@);
        let mut out: Vec<usize> = Vec::new();
        let mut m: usize = 0;
        proof {
            assert(names.take(0) =~= Seq::<Seq<char>>::empty());
            assert(out@ =~= Seq::<usize>::empty());
            assert(idx_ids(ids, out@) =~= Seq::<Seq<char>>::empty());
        }
        while m < deps.len()
            invariant
                n == ids.len(),
                table == t.view_with(ids),
                ids_unique(ids),
                t.targets_below(n as int),
                j < n,
                m <= deps@.len(),
                names == strs(deps@),
                indices_below(out@, n as int),
                idx_ids(ids, out@) == forward_ids(table, names.take(m as int), ids[j as int]@),
            decreases deps@.len() - m,
        {
            proof {
                assert(names.take(m + 1).drop_last() =~= names.take(m as int));
                assert(names.take(m + 1).last() == deps@[m as int]@);
            }
            match t.lookup(&deps[m], Ghost(ids)) {
                Some(x) => {
                    if x != j {
                        proof {
                            lemma_idx_ids_push(ids, out@, x);
                        }
                        out.push(x);
                    } else {
                        assert(table[deps@[m as int]@] == ids[j as int]@);
                    }
                },
                None => {},
            }
            m = m + 1;
        }
        proof {
            assert(names.take(deps@.len() as int) =~= names);
        }
        r.push(out);
        j = j + 1;
    }
    r
}

/// The reverse edges declared by "Required By" lists.
fn required_edges(pkgs: &Vec<PackageInfo>, d: &Deduped, t: &NameTable) -> (r: Vec<Vec<usize>>)
    requires
        ids_unique(d.ids@),
        d.slot@.len() == pkgs@.len(),
        forall|i: int|
            0 <= i < pkgs@.len() ==> #[trigger] d.slot@[i] < d.ids@.len() && d.ids@[d.slot@[i] as int]@
                == qid(pkgs@[i]),
        t.targets_below(d.ids@.len() as int),
    ensures
        r@.len() == d.ids@.len(),
        forall|x: int| 0 <= x < r@.len() ==> indices_below(#[trigger] r@[x]@, d.ids@.len() as int),
        forall|x: int|
            0 <= x < r@.len() ==> idx_ids(d.ids@, #[trigger] r@[x]@) == required_parents(
                pkgs@,
                t.view_with(d.ids@),
                d.ids@[x]@,
            ),
{
    let ghost ids = d.ids@;
    let ghost table = t.view_with(ids);
    let n = d.ids.len();
    let mut r: Vec<Vec<usize>> = Vec::new();
    let mut x: usize = 0;
    while x < n
        invariant
            n == ids.len(),
            x <= n,
            r@.len() == x,
            forall|y: int| 0 <= y < x ==> (#[trigger] r@[y])@ == Seq::<usize>::empty(),
        decreases n - x,
    {
        r.push(Vec::new());
        x = x + 1;
    }
    proof {
        assert forall|y: int| 0 <= y < n implies idx_ids(ids, #[trigger] r@[y]@) == required_parents(
            pkgs@.take(0),
            table,
            ids[y]@,
        ) by {
            assert(idx_ids(ids, r@[y]@) =~= Seq::<Seq<char>>::empty());
        }
    }
    let mut i: usize = 0;
    while i < pkgs.len()
        invariant
            n == ids.len(),
            ids == d.ids@,
            table == t.view_with(ids),
            ids_unique(ids),
            t.targets_below(n as int),
            d.slot@.len() == pkgs@.len(),
            forall|i: int|
                0 <= i < pkgs@.len() ==> #[trigger] d.slot@[i] < d.ids@.len() && d.ids@[d.slot@[
                    i] as int]@ == qid(pkgs@[i]),
            i <= pkgs@.len(),
            r@.len() == n,
            forall|y: int| 0 <= y < n ==> indices_below(#[trigger] r@[y]@, n as int),
            forall|y: int|
                0 <= y < n ==> idx_ids(ids, #[trigger] r@[y]@) == required_parents(
                    pkgs@.take(i as int),
                    table,
                    ids[y]@,
                ),
        decreases pkgs@.len() - i,
    {
        let k = d.slot[i];
        let names_v = &pkgs[i].required_by;
        let ghost names = strs(names_v@);
        let ghost pre = pkgs@.take(i as int);
        let ghost base = idx_ids(ids, r@[k as int]@);
        proof {
            assert(pkgs@.take(i + 1).drop_last() =~= pre);
            assert(pkgs@.take(i + 1).last() == pkgs@[i as int]);
            assert(names.take(0) =~= Seq::<Seq<char>>::empty());
            assert(base + resolve_all(table, names.take(0)) =~= base);
        }
        let mut m: usize = 0;
        while m < names_v.len()
            invariant
                n == ids.len(),
                table == t.view_with(ids),
                t.targets_below(n as int),
                k < n,
                m <= names_v@.len(),
                names == strs(names_v@),
                r@.len() == n,
                forall|y: int| 0 <= y < n ==> indices_below(#[trigger] r@[y]@, n as int),
                base == required_parents(pre, table, ids[k as int]@),
                idx_ids(ids, r@[k as int]@) == base + resolve_all(table, names.take(m as int)),
                forall|y: int|
                    0 <= y < n && y != k ==> idx_ids(ids, #[trigger] r@[y]@) == required_parents(
                        pre,
                        table,
                        ids[y]@,
                    ),
            decreases names_v@.len() - m,
        {
            proof {
                assert(names.take(m + 1).drop_last() =~= names.take(m as int));
                assert(names.take(m + 1).last() == names_v@[m as int]@);
            }
            match t.lookup(&names_v[m], Ghost(ids)) {
                Some(p) => {
                    let ghost old_r = r@;
                    proof {
                        lemma_idx_ids_push(ids, r@[k as int]@, p);
                    }
                    r[k].push(p);
                    proof {
                        assert forall|y: int| 0 <= y < n && y != k implies #[trigger] r@[y] == old_r[y] by {}
                        assert(indices_below(r@[k as int]@, n as int));
                    }
                },
                None => {},
            }
            m = m + 1;
        }
        proof {
            assert(names.take(names_v@.len() as int) =~= names);
            assert forall|y: int| 0 <= y < n implies idx_ids(ids, #[trigger] r@[y]@) == required_parents(
                pkgs@.take(i + 1),
                table,
                ids[y]@,
            ) by {
                if y != k {
                    assert(ids[y]@ != ids[k as int]@);
                }
            }
        }
        i = i + 1;
    }
    proof {
        assert(pkgs@.take(pkgs@.len() as int) =~= pkgs@);
    }
    r
}

/// Whether `x` occurs in `v`.
fn contains_index(v: &Vec<usize>, x: usize) -> (r: bool)
    ensures
        r == v@.contains(x),
{
    let mut i: usize = 0;
    while i < v.len()
        invariant
            i <= v.len(),
            forall|k: int| 0 <= k < i ==> v@[k] != x,
        decreases v.len() - i,
    {
        if v[i] == x {
            return true;
        }
        i = i + 1;
    }
    false
}


/// `now` extends `base` by distinct positions, exactly those `y` not already
/// in `base` for which `want(y)` holds.
pub open spec fn suffix_ok(base: Seq<usize>, now: Seq<usize>, want: spec_fn(usize) -> bool) -> bool {
    &&& base.len() <= now.len()
    &&& now.take(base.len() as int) == base
    &&& now.skip(base.len() as int).no_duplicates()
    &&& forall|y: usize|
        #[trigger] now.skip(base.len() as int).contains(y) <==> (!base.contains(y) && want(y))
}

proof fn lemma_suffix_same(
    base: Seq<usize>,
    now: Seq<usize>,
    w1: spec_fn(usize) -> bool,
    w2: spec_fn(usize) -> bool,
)
    requires
        suffix_ok(base, now, w1),
        forall|y: usize| #[trigger] w1(y) == w2(y),
    ensures
        suffix_ok(base, now, w2),
{
    assert forall|y: usize|
        #[trigger] now.skip(base.len() as int).contains(y) <==> (!base.contains(y) && w2(y)) by {
        assert(w1(y) == w2(y));
    }
}

proof fn lemma_suffix_push(
    base: Seq<usize>,
    before: Seq<usize>,
    j: usize,
    w1: spec_fn(usize) -> bool,
    w2: spec_fn(usize) -> bool,
)
    requires
        suffix_ok(base, before, w1),
        !before.contains(j),
        forall|y: usize| #[trigger] w2(y) == (w1(y) || y == j),
    ensures
        suffix_ok(base, before.push(j), w2),
{
    let now = before.push(j);
    let b = base.len() as int;
    assert(now.take(b) =~= before.take(b));
    assert(now.skip(b) =~= before.skip(b).push(j));
    assert(!before.skip(b).contains(j)) by {
        if before.skip(b).contains(j) {
            let q = choose|q: int| 0 <= q < before.skip(b).len() && before.skip(b)[q] == j;
            assert(before[b + q] == j);
        }
    }
    assert(!base.contains(j)) by {
        if base.contains(j) {
            let q = choose|q: int| 0 <= q < base.len() && base[q] == j;
            assert(before.take(b)[q] == j);
            assert(before[q] == j);
        }
    }
    assert forall|y: usize| #[trigger] now.skip(b).contains(y) <==> (!base.contains(y) && w2(y)) by {
        assert(w2(y) == (w1(y) || y == j));
        if y == j {
            assert(now.skip(b)[now.skip(b).len() - 1] == j);
        } else {
            if now.skip(b).contains(y) {
                let q = choose|q: int| 0 <= q < now.skip(b).len() && now.skip(b)[q] == y;
                assert(q < before.skip(b).len());
                assert(before.skip(b)[q] == y);
            }
            if before.skip(b).contains(y) {
                let q = choose|q: int| 0 <= q < before.skip(b).len() && before.skip(b)[q] == y;
                assert(now.skip(b)[q] == y);
            }
        }
    }
}

proof fn lemma_suffix_present(
    base: Seq<usize>,
    before: Seq<usize>,
    j: usize,
    w1: spec_fn(usize) -> bool,
    w2: spec_fn(usize) -> bool,
)
    requires
        suffix_ok(base, before, w1),
        before.contains(j),
        forall|y: usize| #[trigger] w2(y) == (w1(y) || y == j),
    ensures
        suffix_ok(base, before, w2),
{
    let b = base.len() as int;
    let q = choose|q: int| 0 <= q < before.len() && before[q] == j;
    if q < b {
        assert(before.take(b)[q] == j);
        assert(base.contains(j));
    } else {
        assert(before.skip(b)[q - b] == j);
        assert(before.skip(b).contains(j));
    }
    assert forall|y: usize| #[trigger] before.skip(b).contains(y) <==> (!base.contains(y) && w2(y)) by {
        assert(w2(y) == (w1(y) || y == j));
    }
}

/// Appends to each reverse list the positions that depend on it and are not
/// listed yet, in position order.
fn add_inverse_edges(fwd: &Vec<Vec<usize>>, rev: &mut Vec<Vec<usize>>)
    requires
        old(rev)@.len() == fwd@.len(),
        forall|j: int| 0 <= j < fwd@.len() ==> indices_below(#[trigger] fwd@[j]@, fwd@.len() as int),
        forall|j: int|
            0 <= j < fwd@.len() ==> indices_below(#[trigger] old(rev)@[j]@, fwd@.len() as int),
    ensures
        final(rev)@.len() == fwd@.len(),
        forall|x: int|
            0 <= x < fwd@.len() ==> indices_below(#[trigger] final(rev)@[x]@, fwd@.len() as int),
        forall|x: int|
            0 <= x < fwd@.len() ==> suffix_ok(
                old(rev)@[x]@,
                #[trigger] final(rev)@[x]@,
                |y: usize| y < fwd@.len() && fwd@[y as int]@.contains(x as usize),
            ),
{
    let n = fwd.len();
    let ghost r0 = rev@.map_values(|v: Vec<usize>| v@);
    let mut j: usize = 0;
    proof {
        assert forall|x: int| 0 <= x < n implies suffix_ok(
            r0[x],
            #[trigger] rev@[x]@,
            |y: usize| y < 0 && fwd@[y as int]@.contains(x as usize),
        ) by {
            assert(rev@[x]@.take(r0[x].len() as int) =~= r0[x]);
            assert(rev@[x]@.skip(r0[x].len() as int) =~= Seq::<usize>::empty());
        }
    }
    while j < n
        invariant
            n == fwd@.len(),
            rev@.len() == n,
            r0.len() == n,
            forall|x: int| 0 <= x < n ==> r0[x] == old(rev)@[x]@,
            j <= n,
            forall|j: int| 0 <= j < n ==> indices_below(#[trigger] fwd@[j]@, n as int),
            forall|x: int| 0 <= x < n ==> indices_below(#[trigger] rev@[x]@, n as int),
            forall|x: int|
                0 <= x < n ==> suffix_ok(
                    r0[x],
                    #[trigger] rev@[x]@,
                    |y: usize| y < j && fwd@[y as int]@.contains(x as usize),
                ),
        decreases n - j,
    {
        let deps = &fwd[j];
        let mut m: usize = 0;
        proof {
            assert forall|x: int| 0 <= x < n implies suffix_ok(
                r0[x],
                #[trigger] rev@[x]@,
                |y: usize|
                    y < j && fwd@[y as int]@.contains(x as usize) || y == j && deps@.take(
                        0,
                    ).contains(x as usize),
            ) by {
                lemma_suffix_same(
                    r0[x],
                    rev@[x]@,
                    |y: usize| y < j && fwd@[y as int]@.contains(x as usize),
                    |y: usize|
                        y < j && fwd@[y as int]@.contains(x as usize) || y == j && deps@.take(
                            0,
                        ).contains(x as usize),
                );
            }
        }
        while m < deps.len()
            invariant
                n == fwd@.len(),
                rev@.len() == n,
                r0.len() == n,
                j < n,
                deps@ == fwd@[j as int]@,
                m <= deps@.len(),
                forall|j: int| 0 <= j < n ==> indices_below(#[trigger] fwd@[j]@, n as int),
                forall|x: int| 0 <= x < n ==> indices_below(#[trigger] rev@[x]@, n as int),
                forall|x: int|
                    0 <= x < n ==> suffix_ok(
                        r0[x],
                        #[trigger] rev@[x]@,
                        |y: usize|
                            y < j && fwd@[y as int]@.contains(x as usize) || y == j && deps@.take(
                                m as int,
                            ).contains(x as usize),
                    ),
            decreases deps@.len() - m,
        {
            let t = deps[m];
            proof {
                assert(indices_below(fwd@[j as int]@, n as int));
                assert(deps@[m as int] == t);
                assert(deps@.take(m + 1) =~= deps@.take(m as int).push(t));
            }
            let ghost old_rev = rev@;
            let present = contains_index(&rev[t], j);
            if !present {
                rev[t].push(j);
            }
            proof {
                assert forall|x: int| 0 <= x < n implies suffix_ok(
                    r0[x],
                    #[trigger] rev@[x]@,
                    |y: usize|
                        y < j && fwd@[y as int]@.contains(x as usize) || y == j && deps@.take(
                            m + 1,
                        ).contains(x as usize),
                ) by {
                    let w1 = |y: usize|
                        y < j && fwd@[y as int]@.contains(x as usize) || y == j && deps@.take(
                            m as int,
                        ).contains(x as usize);
                    let w2 = |y: usize|
                        y < j && fwd@[y as int]@.contains(x as usize) || y == j && deps@.take(
                            m + 1,
                        ).contains(x as usize);
                    assert(suffix_ok(r0[x], old_rev[x]@, w1));
                    if x != t {
                        assert(rev@[x] == old_rev[x]);
                        assert forall|y: usize| #[trigger] w1(y) == w2(y) by {
                            if deps@.take(m + 1).contains(x as usize) {
                                let q = choose|q: int|
                                    0 <= q < m + 1 && #[trigger] deps@.take(m + 1)[q] == x as usize;
                                assert(q < m);
                                assert(deps@.take(m as int)[q] == x as usize);
                            }
                        }
                        lemma_suffix_same(r0[x], rev@[x]@, w1, w2);
                    } else {
                        assert(deps@.take(m + 1)[m as int] == t);
                        assert forall|y: usize| #[trigger] w2(y) == (w1(y) || y == j) by {
                            if y == j {
                                assert(deps@.take(m + 1).contains(x as usize));
                            } else {
                            }
                        }
                        if present {
                            lemma_suffix_present(r0[x], old_rev[x]@, j, w1, w2);
                        } else {
                            lemma_suffix_push(r0[x], old_rev[x]@, j, w1, w2);
                        }
                    }
                }
                assert forall|x: int| 0 <= x < n implies indices_below(#[trigger] rev@[x]@, n as int) by {
                    if x != t {
                        assert(rev@[x] == old_rev[x]);
                    }
                }
            }
            m = m + 1;
        }
        proof {
            assert(deps@.take(deps@.len() as int) =~= deps@);
            assert forall|x: int| 0 <= x < n implies suffix_ok(
                r0[x],
                #[trigger] rev@[x]@,
                |y: usize| y < j + 1 && fwd@[y as int]@.contains(x as usize),
            ) by {
                lemma_suffix_same(
                    r0[x],
                    rev@[x]@,
                    |y: usize|
                        y < j && fwd@[y as int]@.contains(x as usize) || y == j && deps@.take(
                            deps@.len() as int,
                        ).contains(x as usize),
                    |y: usize| y < j + 1 && fwd@[y as int]@.contains(x as usize),
                );
            }
        }
        j = j + 1;
    }
    proof {
        assert forall|x: int| 0 <= x < n implies suffix_ok(
            old(rev)@[x]@,
            #[trigger] rev@[x]@,
            |y: usize| y < fwd@.len() && fwd@[y as int]@.contains(x as usize),
        ) by {
            lemma_suffix_same(
                r0[x],
                rev@[x]@,
                |y: usize| y < n && fwd@[y as int]@.contains(x as usize),
                |y: usize| y < fwd@.len() && fwd@[y as int]@.contains(x as usize),
            );
        }
    }
}

/// What a graph built from `packages` is: every package's id is present,
/// each entry holds the last package with its id, dependencies resolve
/// through the name table, and the reverse edges are the resolved
/// "Required By" lists followed by the other dependents.
pub open spec fn built_from(t: DependencyTree, packages: Seq<PackageInfo>) -> bool {
    &&& forall|i: int| 0 <= i < packages.len() ==> t.has_id(#[trigger] qid(packages[i]))
    &&& forall|j: int|
            0 <= j < t.len() ==> {
                let l = last_with_id(packages, #[trigger] t.id_at(j));
                0 <= l < packages.len() && same_info(t.info_at(j), packages[l])
            }
    &&& forall|j: int|
            0 <= j < t.len() ==> #[trigger] t.deps_of(j) == forward_ids(
                name_table(packages),
                strs(t.info_at(j).depends@),
                t.id_at(j),
            )
    &&& forall|x: int|
            #![trigger t.reverse_at(x)]
            0 <= x < t.len() ==> {
                let rp = required_parents(packages, name_table(packages), t.id_at(x));
                &&& rp.len() <= t.reverse_at(x).len()
                &&& t.parents_at(x).take(rp.len() as int) == rp
                &&& suffix_ok(
                    t.reverse_at(x).take(rp.len() as int),
                    t.reverse_at(x),
                    |y: usize| y < t.len() && t.forward_at(y as int).contains(x as usize),
                )
            }
}

/// In a graph built from scanned packages, every dependency is matched by
/// a dependent link: when package `y` depends on package `x`, `y` is among
/// the packages that depend on `x`.
pub proof fn lemma_built_links_inverse(t: DependencyTree, packages: Seq<PackageInfo>, x: int, y: usize)
    requires
        built_from(t, packages),
        0 <= x < t.len(),
        y < t.len(),
        t.forward_at(y as int).contains(x as usize),
    ensures
        t.reverse_at(x).contains(y),
{
    let rev = t.reverse_at(x);
    let rp = required_parents(packages, name_table(packages), t.id_at(x));
    let base = rev.take(rp.len() as int);
    let want = |z: usize| z < t.len() && t.forward_at(z as int).contains(x as usize);
    assert(suffix_ok(base, rev, want));
    if base.contains(y) {
        let k = choose|k: int| 0 <= k < base.len() && base[k] == y;
        assert(rev[k] == y);
    } else {
        assert(want(y));
        assert(rev.skip(base.len() as int).contains(y));
        let k = choose|k: int| 0 <= k < rev.skip(base.len() as int).len() && rev.skip(base.len() as int)[k] == y;
        assert(rev[base.len() + k] == y);
    }
}

proof fn lemma_no_required_parents(pkgs: Seq<PackageInfo>, table: Map<Seq<char>, Seq<char>>, k: Seq<char>)
    requires
        forall|i: int| 0 <= i < pkgs.len() ==> (#[trigger] pkgs[i]).required_by@.len() == 0,
    ensures
        required_parents(pkgs, table, k) == Seq::<Seq<char>>::empty(),
    decreases pkgs.len(),
{
    if pkgs.len() > 0 {
        let pre = pkgs.drop_last();
        assert forall|i: int| 0 <= i < pre.len() implies (#[trigger] pre[i]).required_by@.len() == 0 by {
            assert(pre[i] == pkgs[i]);
        }
        lemma_no_required_parents(pre, table, k);
        assert(pkgs.last() == pkgs[pkgs.len() - 1]);
        assert(strs(pkgs.last().required_by@) =~= Seq::<Seq<char>>::empty());
        assert(required_parents(pkgs, table, k) =~= Seq::<Seq<char>>::empty());
    }
}

/// In a graph built from packages that declare no "Required By" lists, the
/// two kinds of link agree for every package: each package that depends on
/// `i` lists `i` among its dependencies.
pub proof fn lemma_built_links_agree(t: DependencyTree, packages: Seq<PackageInfo>)
    requires
        built_from(t, packages),
        forall|i: int| 0 <= i < packages.len() ==> (#[trigger] packages[i]).required_by@.len() == 0,
    ensures
        forall|i: int| 0 <= i < t.len() ==> #[trigger] parents_agree(t, i),
{
    assert forall|i: int| 0 <= i < t.len() implies #[trigger] parents_agree(t, i) by {
        let rev = t.reverse_at(i);
        lemma_no_required_parents(packages, name_table(packages), t.id_at(i));
        let want = |y: usize| y < t.len() && t.forward_at(y as int).contains(i as usize);
        assert(suffix_ok(rev.take(0), rev, want));
        assert(rev.skip(0) =~= rev);
        assert forall|z: int| 0 <= z < rev.len() implies t.forward_at(#[trigger] rev[z] as int).contains(
            i as usize,
        ) by {
            assert(rev.skip(0).contains(rev[z]));
        }
    }
}

impl DependencyTree {
    /// Builds the graph from scanned packages.
    ///
    /// Packages are indexed by qualified id (a later package replaces an
    /// earlier one with the same id).  Dependency names resolve through
    /// [`name_table`]; reverse edges are the resolved "Required By" lists,
    /// followed by every package that depends on the entry and is not listed
    /// yet.
    pub fn build(packages: Vec<PackageInfo>) -> (t: Self)
        ensures
            t.wf(),
            built_from(t, packages@),
            forall|i: int| 0 <= i < packages@.len() ==> t.has_id(#[trigger] qid(packages@[i])),
            forall|j: int|
                0 <= j < t.len() ==> {
                    let l = last_with_id(packages@, #[trigger] t.id_at(j));
                    0 <= l < packages@.len() && same_info(t.info_at(j), packages@[l])
                },
            forall|j: int|
                0 <= j < t.len() ==> #[trigger] t.deps_of(j) == forward_ids(
                    name_table(packages@),
                    strs(t.info_at(j).depends@),
                    t.id_at(j),
                ),
            forall|x: int|
                #![trigger t.reverse_at(x)]
                0 <= x < t.len() ==> {
                    let rp = required_parents(packages@, name_table(packages@), t.id_at(x));
                    &&& rp.len() <= t.reverse_at(x).len()
                    &&& t.parents_at(x).take(rp.len() as int) == rp
                    &&& suffix_ok(
                        t.reverse_at(x).take(rp.len() as int),
                        t.reverse_at(x),
                        |y: usize| y < t.len() && t.forward_at(y as int).contains(x as usize),
                    )
                },
    {
        let d = dedupe(&packages);
        let table = build_name_table(&packages, &d);
        let fwd = forward_edges(&d, &table);
        let mut rev = required_edges(&packages, &d, &table);
        let ghost rev0 = rev@;
        add_inverse_edges(&fwd, &mut rev);
        let t = DependencyTree { packages: d.packages, ids: d.ids, depends_on: fwd, depended_by: rev };
        proof {
            let n = t.len();
            assert forall|i: int| 0 <= i < packages@.len() implies t.has_id(#[trigger] qid(packages@[i])) by {
                assert(t.id_at(d.slot@[i] as int) == qid(packages@[i]));
            }
            assert forall|j: int| 0 <= j < n implies #[trigger] t.deps_of(j) == forward_ids(
                name_table(packages@),
                strs(t.info_at(j).depends@),
                t.id_at(j),
            ) by {
                assert(t.deps_of(j) =~= idx_ids(t.ids@, t.forward_at(j)));
            }
            assert forall|x: int| #![trigger t.reverse_at(x)] 0 <= x < n implies {
                let rp = required_parents(packages@, name_table(packages@), t.id_at(x));
                &&& rp.len() <= t.reverse_at(x).len()
                &&& t.parents_at(x).take(rp.len() as int) == rp
                &&& suffix_ok(
                    t.reverse_at(x).take(rp.len() as int),
                    t.reverse_at(x),
                    |y: usize| y < t.len() && t.forward_at(y as int).contains(x as usize),
                )
            } by {
                let rp = required_parents(packages@, name_table(packages@), t.id_at(x));
                assert(idx_ids(t.ids@, rev0[x]@) == rp);
                assert(rp.len() == rev0[x]@.len());
                assert(t.reverse_at(x).take(rp.len() as int) == rev0[x]@);
                assert(t.parents_at(x).take(rp.len() as int) =~= idx_ids(t.ids@, rev0[x]@));
                lemma_suffix_same(
                    rev0[x]@,
                    t.reverse_at(x),
                    |y: usize| y < fwd@.len() && fwd@[y as int]@.contains(x as usize),
                    |y: usize| y < t.len() && t.forward_at(y as int).contains(x as usize),
                );
            }
        }
        t
    }
}

// ---------------------------------------------------------------------------
// Removal branches
// ---------------------------------------------------------------------------

/// Number of `true` entries.
pub open spec fn count_true(s: Seq<bool>) -> nat
    decreases s.len(),
{
    if s.len() == 0 {
        0
    } else {
        count_true(s.drop_last()) + if s.last() {
            1nat
        } else {
            0nat
        }
    }
}

proof fn lemma_count_true_le(s: Seq<bool>)
    ensures
        count_true(s) <= s.len(),
    decreases s.len(),
{
    if s.len() > 0 {
        lemma_count_true_le(s.drop_last());
    }
}

proof fn lemma_count_true_none(s: Seq<bool>)
    requires
        forall|k: int| 0 <= k < s.len() ==> !s[k],
    ensures
        count_true(s) == 0,
    decreases s.len(),
{
    if s.len() > 0 {
        lemma_count_true_none(s.drop_last());
    }
}

proof fn lemma_count_true_set(s: Seq<bool>, i: int)
    requires
        0 <= i < s.len(),
        !s[i],
    ensures
        count_true(s.update(i, true)) == count_true(s) + 1,
    decreases s.len(),
{
    let u = s.update(i, true);
    if i < s.len() - 1 {
        assert(u.drop_last() =~= s.drop_last().update(i, true));
        lemma_count_true_set(s.drop_last(), i);
    } else {
        assert(u.drop_last() =~= s.drop_last());
    }
}

/// `id` is one of the selected ids, or a package that the removal of the
/// branch leaves orphaned: not explicitly installed, every package that
/// depends on it is in the branch, and some package in the branch depends
/// on it.
pub open spec fn branch_member_ok(
    t: DependencyTree,
    selected: Seq<Seq<char>>,
    branch: Seq<Seq<char>>,
    id: Seq<char>,
) -> bool {
    ||| selected.contains(id)
    ||| exists|i: int|
        #![trigger t.id_at(i)]
        0 <= i < t.len() && t.id_at(i) == id && !t.info_at(i).is_explicit && (forall|k: int|
            0 <= k < t.reverse_at(i).len() ==> branch.contains(
                #[trigger] t.id_at(t.reverse_at(i)[k] as int),
            )) && (exists|q: int|
            0 <= q < t.len() && branch.contains(#[trigger] t.id_at(q)) && t.forward_at(q).contains(
                i as usize,
            ))
}

/// What holds of the removal branch `r` of a selection, whatever order the
/// selection is walked in: no id twice, every selected id included, every
/// other member orphaned by the removal of the branch, no orphan left
/// behind where the links agree, and nothing the selection does not force.
pub open spec fn removal_branch_ok(t: DependencyTree, selected: Seq<Seq<char>>, r: Seq<Seq<char>>) -> bool {
    &&& r.no_duplicates()
    &&& forall|k: int| 0 <= k < selected.len() ==> r.contains(#[trigger] selected[k])
    &&& forall|k: int| 0 <= k < r.len() ==> branch_member_ok(t, selected, r, #[trigger] r[k])
    &&& closed_where_agreed(t, r.to_set())
    &&& forced_by(t, selected, r)
}

/// Whether every package that depends on package `i` also lists `i` among
/// its dependencies: the two kinds of link agree for `i`.  (They can differ
/// when a package's "Required By" list names packages whose dependency
/// lists do not resolve to it.)
pub open spec fn parents_agree(t: DependencyTree, i: int) -> bool {
    forall|z: int|
        0 <= z < t.reverse_at(i).len() ==> t.forward_at(#[trigger] t.reverse_at(i)[z] as int).contains(i as usize)
}

/// Whether every package that depends on package `i` has its id in `s`.
pub open spec fn parents_in(t: DependencyTree, s: Set<Seq<char>>, i: int) -> bool {
    forall|z: int| 0 <= z < t.reverse_at(i).len() ==> s.contains(#[trigger] t.id_at(t.reverse_at(i)[z] as int))
}

/// Whether the set of ids `s` is closed under orphaning: each dependency of
/// a member that is not explicitly installed, and all of whose dependents
/// are members, is a member too.
pub open spec fn orphan_closed(t: DependencyTree, s: Set<Seq<char>>) -> bool {
    forall|q: int, i: usize|
        0 <= q < t.len() && i < t.len() && #[trigger] s.contains(t.id_at(q)) && #[trigger] t.forward_at(q).contains(i)
            && !t.info_at(i as int).is_explicit && parents_in(t, s, i as int) ==> s.contains(t.id_at(i as int))
}

/// As [`orphan_closed`], for the dependencies whose dependents all list them
/// (see [`parents_agree`]).
pub open spec fn closed_where_agreed(t: DependencyTree, s: Set<Seq<char>>) -> bool {
    forall|q: int, i: usize|
        0 <= q < t.len() && i < t.len() && #[trigger] s.contains(t.id_at(q)) && #[trigger] t.forward_at(q).contains(i)
            && !t.info_at(i as int).is_explicit && parents_agree(t, i as int) && parents_in(t, s, i as int) ==> s.contains(
            t.id_at(i as int),
        )
}

/// Whether every member of `r` belongs to every set closed under orphaning
/// that holds the selection: the branch holds nothing the selection does
/// not force.
pub open spec fn forced_by(t: DependencyTree, sel: Seq<Seq<char>>, r: Seq<Seq<char>>) -> bool {
    forall|s: Set<Seq<char>>|
        #[trigger] orphan_closed(t, s) && (forall|k: int| 0 <= k < sel.len() ==> s.contains(#[trigger] sel[k])) ==> (
        forall|k: int| 0 <= k < r.len() ==> s.contains(#[trigger] r[k]))
}

/// Package `x` has been put in the queue.
spec fn queued(queue: Seq<usize>, x: int) -> bool {
    exists|b: int| 0 <= b < queue.len() && #[trigger] queue[b] as int == x
}

/// `p` waits in the queue at or after position `from`.
spec fn pending(queue: Seq<usize>, from: int, p: usize) -> bool {
    exists|b: int| from <= b < queue.len() && #[trigger] queue[b] == p
}

/// The walk has dealt with dependency `i` of a processed package: it is in
/// the branch, explicitly installed, has a dependent that does not list it,
/// or has a dependent that is not in the branch or still waits to be
/// processed (and will look at `i` again).
spec fn dep_settled(t: DependencyTree, removed: Seq<bool>, queue: Seq<usize>, from: int, i: int) -> bool {
    ||| removed[i]
    ||| t.info_at(i).is_explicit
    ||| !parents_agree(t, i)
    ||| exists|z: int|
        0 <= z < t.reverse_at(i).len() && (!removed[#[trigger] t.reverse_at(i)[z] as int] || pending(
            queue,
            from,
            t.reverse_at(i)[z],
        ))
}

/// Every dependency of the packages processed so far is settled.
spec fn walk_settled(t: DependencyTree, removed: Seq<bool>, queue: Seq<usize>, done: int, from: int) -> bool {
    forall|a: int, j: int|
        0 <= a < done && 0 <= j < t.forward_at(queue[a] as int).len() ==> dep_settled(
            t,
            removed,
            queue,
            from,
            #[trigger] t.forward_at(#[trigger] queue[a] as int)[j] as int,
        )
}

proof fn lemma_dep_settled_grow(t: DependencyTree, removed: Seq<bool>, queue: Seq<usize>, from: int, i: int, x: usize)
    requires
        t.wf(),
        removed.len() == t.len(),
        0 <= i < t.len(),
        x < t.len(),
        0 <= from <= queue.len(),
        dep_settled(t, removed, queue, from, i),
    ensures
        dep_settled(t, removed.update(x as int, true), queue.push(x), from, i),
{
    t.lemma_wf();
    let r2 = removed.update(x as int, true);
    let q2 = queue.push(x);
    if !removed[i] && !t.info_at(i).is_explicit && parents_agree(t, i) {
        let z = choose|z: int|
            0 <= z < t.reverse_at(i).len() && (!removed[#[trigger] t.reverse_at(i)[z] as int] || pending(
                queue,
                from,
                t.reverse_at(i)[z],
            ));
        let p = t.reverse_at(i)[z];
        if pending(queue, from, p) {
            let b = choose|b: int| from <= b < queue.len() && #[trigger] queue[b] == p;
            assert(q2[b] == p);
        } else if p == x {
            assert(q2[queue.len() as int] == p);
        } else {
            assert(!r2[p as int]);
        }
    }
}

proof fn lemma_settled_grow(t: DependencyTree, removed: Seq<bool>, queue: Seq<usize>, from: int, done: int, x: usize)
    requires
        t.wf(),
        removed.len() == t.len(),
        x < t.len(),
        0 <= done <= queue.len(),
        0 <= from <= queue.len(),
        forall|k: int| 0 <= k < queue.len() ==> #[trigger] queue[k] < t.len(),
        walk_settled(t, removed, queue, done, from),
    ensures
        walk_settled(t, removed.update(x as int, true), queue.push(x), done, from),
{
    t.lemma_wf();
    let r2 = removed.update(x as int, true);
    let q2 = queue.push(x);
    assert forall|a: int, j: int| 0 <= a < done && 0 <= j < t.forward_at(q2[a] as int).len() implies dep_settled(
        t,
        r2,
        q2,
        from,
        #[trigger] t.forward_at(#[trigger] q2[a] as int)[j] as int,
    ) by {
        assert(q2[a] == queue[a]);
        let i = t.forward_at(queue[a] as int)[j] as int;
        assert(dep_settled(t, removed, queue, from, i));
        lemma_dep_settled_grow(t, removed, queue, from, i, x);
    }
}

/// Adding an orphan of the branch keeps the branch forced by the selection.
proof fn lemma_forced_grow(t: DependencyTree, sel: Seq<Seq<char>>, rs: Seq<Seq<char>>, q: int, i: usize)
    requires
        0 <= q < t.len(),
        i < t.len(),
        forced_by(t, sel, rs),
        rs.contains(t.id_at(q)),
        t.forward_at(q).contains(i),
        !t.info_at(i as int).is_explicit,
        forall|z: int|
            0 <= z < t.reverse_at(i as int).len() ==> rs.contains(#[trigger] t.id_at(t.reverse_at(i as int)[z] as int)),
    ensures
        forced_by(t, sel, rs.push(t.id_at(i as int))),
{
    let ns = rs.push(t.id_at(i as int));
    assert forall|s: Set<Seq<char>>|
        #[trigger] orphan_closed(t, s) && (forall|k: int| 0 <= k < sel.len() ==> s.contains(#[trigger] sel[k])) implies (
        forall|k: int| 0 <= k < ns.len() ==> s.contains(#[trigger] ns[k])) by {
        assert(forall|k: int| 0 <= k < rs.len() ==> s.contains(#[trigger] rs[k]));
        let zq = choose|zq: int| 0 <= zq < rs.len() && rs[zq] == t.id_at(q);
        assert(s.contains(t.id_at(q)));
        assert forall|z: int| 0 <= z < t.reverse_at(i as int).len() implies s.contains(
            #[trigger] t.id_at(t.reverse_at(i as int)[z] as int),
        ) by {
            let w = choose|w: int| 0 <= w < rs.len() && rs[w] == t.id_at(t.reverse_at(i as int)[z] as int);
            assert(s.contains(rs[w]));
        }
        assert(parents_in(t, s, i as int));
        assert(s.contains(t.id_at(i as int)));
        assert forall|k: int| 0 <= k < ns.len() implies s.contains(#[trigger] ns[k]) by {
            if k < rs.len() {
                assert(ns[k] == rs[k]);
            }
        }
    }
}

/// When every package in the branch has been processed, the branch is
/// closed under orphaning wherever the links agree.
proof fn lemma_walk_closed(t: DependencyTree, removed: Seq<bool>, queue: Seq<usize>, r: Seq<Seq<char>>)
    requires
        t.wf(),
        removed.len() == t.len(),
        forall|k: int| 0 <= k < queue.len() ==> #[trigger] queue[k] < t.len(),
        walk_settled(t, removed, queue, queue.len() as int, queue.len() as int),
        forall|x: int| 0 <= x < t.len() && #[trigger] removed[x] ==> queued(queue, x),
        forall|x: int| 0 <= x < t.len() ==> (#[trigger] removed[x] <==> r.contains(t.id_at(x))),
    ensures
        closed_where_agreed(t, r.to_set()),
{
    t.lemma_wf();
    let s = r.to_set();
    assert forall|q: int, i: usize|
        0 <= q < t.len() && i < t.len() && #[trigger] s.contains(t.id_at(q)) && #[trigger] t.forward_at(q).contains(i)
            && !t.info_at(i as int).is_explicit && parents_agree(t, i as int) && parents_in(t, s, i as int) implies s.contains(
        t.id_at(i as int),
    ) by {
        let ii = i as int;
        assert(r.contains(t.id_at(q)));
        assert(removed[q]);
        let b = choose|b: int| 0 <= b < queue.len() && #[trigger] queue[b] as int == q;
        let j = choose|j: int| 0 <= j < t.forward_at(q).len() && t.forward_at(q)[j] == i;
        assert(t.forward_at(queue[b] as int)[j] == i);
        assert(dep_settled(t, removed, queue, queue.len() as int, ii));
        if !removed[ii] {
            let z = choose|z: int|
                0 <= z < t.reverse_at(ii).len() && (!removed[#[trigger] t.reverse_at(ii)[z] as int] || pending(
                    queue,
                    queue.len() as int,
                    t.reverse_at(ii)[z],
                ));
            let p = t.reverse_at(ii)[z] as int;
            assert(s.contains(t.id_at(p)));
            assert(r.contains(t.id_at(p)));
            assert(removed[p]);
        }
        assert(r.contains(t.id_at(ii)));
    }
}

/// Once package `q`, which waited at `from`, has had all its dependencies
/// settled, the packages processed before it stay settled without it.
proof fn lemma_settled_advance(t: DependencyTree, removed: Seq<bool>, queue: Seq<usize>, from: int)
    requires
        t.wf(),
        removed.len() == t.len(),
        0 <= from < queue.len(),
        forall|k: int| 0 <= k < queue.len() ==> #[trigger] queue[k] < t.len(),
        walk_settled(t, removed, queue, from, from),
        forall|j: int|
            0 <= j < t.forward_at(queue[from] as int).len() ==> dep_settled(
                t,
                removed,
                queue,
                from + 1,
                #[trigger] t.forward_at(queue[from] as int)[j] as int,
            ),
    ensures
        walk_settled(t, removed, queue, from + 1, from + 1),
{
    t.lemma_wf();
    let q = queue[from];
    assert forall|a: int, j: int| 0 <= a < from + 1 && 0 <= j < t.forward_at(queue[a] as int).len() implies dep_settled(
        t,
        removed,
        queue,
        from + 1,
        #[trigger] t.forward_at(#[trigger] queue[a] as int)[j] as int,
    ) by {
        let i = t.forward_at(queue[a] as int)[j] as int;
        if a < from {
            assert(dep_settled(t, removed, queue, from, i));
            if !removed[i] && !t.info_at(i).is_explicit && parents_agree(t, i) {
                let z = choose|z: int|
                    0 <= z < t.reverse_at(i).len() && (!removed[#[trigger] t.reverse_at(i)[z] as int] || pending(
                        queue,
                        from,
                        t.reverse_at(i)[z],
                    ));
                let p = t.reverse_at(i)[z];
                if removed[p as int] {
                    let b = choose|b: int| from <= b < queue.len() && #[trigger] queue[b] == p;
                    if b == from {
                        assert(t.forward_at(p as int).contains(i as usize));
                        let jj = choose|jj: int| 0 <= jj < t.forward_at(q as int).len() && t.forward_at(q as int)[jj] == i as usize;
                        assert(dep_settled(t, removed, queue, from + 1, t.forward_at(q as int)[jj] as int));
                    } else {
                        assert(pending(queue, from + 1, p));
                    }
                }
            }
        }
    }
}

impl DependencyTree {
    /// The removal branch of a selection: the selected ids plus every
    /// dependency, found breadth-first from the selection, that would be
    /// left orphaned.  Explicitly installed packages are never added.
    pub fn compute_removal_branch(&self, selected_ids: &Vec<String>) -> (r: Vec<String>)
        requires
            self.wf(),
        ensures
            strs(r@).no_duplicates(),
            forall|k: int|
                0 <= k < selected_ids@.len() ==> strs(r@).contains(#[trigger] selected_ids@[k]@),
            forall|k: int|
                0 <= k < r@.len() ==> branch_member_ok(
                    *self,
                    strs(selected_ids@),
                    strs(r@),
                    #[trigger] r@[k]@,
                ),
            closed_where_agreed(*self, strs(r@).to_set()),
            forced_by(*self, strs(selected_ids@), strs(r@)),
    {
        let n = self.packages.len();
        let ghost sel = strs(selected_ids@);
        let mut removed: Vec<bool> = Vec::new();
        let mut i: usize = 0;
        while i < n
            invariant
                i <= n,
                removed@.len() == i,
                forall|k: int| 0 <= k < i ==> !removed@[k],
            decreases n - i,
        {
            removed.push(false);
            i = i + 1;
        }
        proof {
            lemma_count_true_none(removed@);
        }
        let mut result: Vec<String> = Vec::new();
        let mut queue: Vec<usize> = Vec::new();
        // the selection, each id once
        let mut s: usize = 0;
        while s < selected_ids.len()
            invariant
                self.wf(),
                n == self.len(),
                sel == strs(selected_ids@),
                s <= selected_ids@.len(),
                removed@.len() == n,
                strs(result@).no_duplicates(),
                forall|k: int| 0 <= k < s ==> strs(result@).contains(#[trigger] selected_ids@[k]@),
                forall|k: int| 0 <= k < result@.len() ==> sel.contains(#[trigger] result@[k]@),
                forall|x: int|
                    0 <= x < n ==> (#[trigger] removed@[x] <==> strs(result@).contains(self.id_at(x))),
                forall|k: int| 0 <= k < queue@.len() ==> #[trigger] queue@[k] < n,
                forall|k: int| 0 <= k < queue@.len() ==> removed@[#[trigger] queue@[k] as int],
                queue@.len() == count_true(removed@),
                forall|x: int| 0 <= x < n && #[trigger] removed@[x] ==> queued(queue@, x),
            decreases selected_ids@.len() - s,
        {
            let id = &selected_ids[s];
            let ghost rs = strs(result@);
            proof {
                assert(sel[s as int] == id@);
            }
            let mut dup = false;
            let mut k: usize = 0;
            while k < result.len()
                invariant
                    k <= result@.len(),
                    rs == strs(result@),
                    !dup ==> forall|z: int| 0 <= z < k ==> rs[z] != id@,
                    dup ==> rs.contains(id@),
                decreases result@.len() - k,
            {
                if result[k] == *id {
                    dup = true;
                    proof {
                        assert(rs[k as int] == id@);
                    }
                }
                k = k + 1;
            }
            if !dup {
                let found = self.find(id.as_str());
                let idc = id.clone();
                proof {
                    crate::text::lemma_strs_push(result@, idc);
                }
                result.push(idc);
                proof {
                    assert(strs(result@) == rs.push(id@));
                    assert(strs(result@).no_duplicates());
                    assert forall|k: int| 0 <= k < result@.len() implies sel.contains(#[trigger] result@[k]@) by {
                        if k == result@.len() - 1 {
                            assert(sel[s as int] == result@[k]@);
                        } else {
                            assert(rs[k] == result@[k]@);
                        }
                    }
                    assert forall|k: int| 0 <= k <= s implies strs(result@).contains(#[trigger] selected_ids@[k]@) by {
                        if k < s {
                            let z = choose|z: int| 0 <= z < rs.len() && rs[z] == selected_ids@[k]@;
                            assert(strs(result@)[z] == selected_ids@[k]@);
                        } else {
                            assert(strs(result@)[rs.len() as int] == id@);
                        }
                    }
                }
                match found {
                    Some(x) => {
                        proof {
                            assert(!removed@[x as int]) by {
                                if removed@[x as int] {
                                    assert(rs.contains(self.id_at(x as int)));
                                }
                            }
                            lemma_count_true_set(removed@, x as int);
                        }
                        let ghost oq = queue@;
                        let ghost orm = removed@;
                        removed.set(x, true);
                        queue.push(x);
                        proof {
                            assert forall|y: int| 0 <= y < n && #[trigger] removed@[y] implies queued(queue@, y) by {
                                if y == x as int {
                                    assert(queue@[oq.len() as int] as int == y);
                                } else {
                                    assert(orm[y]);
                                    let b = choose|b: int| 0 <= b < oq.len() && #[trigger] oq[b] as int == y;
                                    assert(queue@[b] == oq[b]);
                                }
                            }
                            assert forall|y: int| 0 <= y < n implies (#[trigger] removed@[y] <==> strs(result@).contains(self.id_at(y))) by {
                                if y != x {
                                    assert(self.id_at(y) != id@);
                                    if rs.contains(self.id_at(y)) {
                                        let z = choose|z: int| 0 <= z < rs.len() && rs[z] == self.id_at(y);
                                        assert(strs(result@)[z] == self.id_at(y));
                                    }
                                    if strs(result@).contains(self.id_at(y)) {
                                        let z = choose|z: int| 0 <= z < strs(result@).len() && strs(result@)[z] == self.id_at(y);
                                        assert(z < rs.len());
                                        assert(rs[z] == self.id_at(y));
                                    }
                                } else {
                                    assert(strs(result@)[rs.len() as int] == id@);
                                }
                            }
                        }
                    },
                    None => {
                        proof {
                            assert forall|y: int| 0 <= y < n implies (#[trigger] removed@[y] <==> strs(result@).contains(self.id_at(y))) by {
                                assert(self.id_at(y) != id@);
                                if rs.contains(self.id_at(y)) {
                                    let z = choose|z: int| 0 <= z < rs.len() && rs[z] == self.id_at(y);
                                    assert(strs(result@)[z] == self.id_at(y));
                                }
                                if strs(result@).contains(self.id_at(y)) {
                                    let z = choose|z: int| 0 <= z < strs(result@).len() && strs(result@)[z] == self.id_at(y);
                                    assert(z < rs.len());
                                    assert(rs[z] == self.id_at(y));
                                }
                            }
                        }
                    },
                }
            } else {
                proof {
                    assert forall|k: int| 0 <= k <= s implies strs(result@).contains(#[trigger] selected_ids@[k]@) by {
                    }
                }
            }
            s = s + 1;
        }
        let mut head: usize = 0;
        proof {
            lemma_count_true_le(removed@);
            assert forall|st: Set<Seq<char>>|
                #[trigger] orphan_closed(*self, st) && (forall|k: int| 0 <= k < sel.len() ==> st.contains(#[trigger] sel[k])) implies (
                forall|k: int| 0 <= k < strs(result@).len() ==> st.contains(#[trigger] strs(result@)[k])) by {
                assert forall|k: int| 0 <= k < strs(result@).len() implies st.contains(#[trigger] strs(result@)[k]) by {
                    assert(sel.contains(result@[k]@));
                    let w = choose|w: int| 0 <= w < sel.len() && sel[w] == result@[k]@;
                    assert(st.contains(sel[w]));
                }
            }
            assert(forced_by(*self, sel, strs(result@)));
        }
        while head < queue.len()
            invariant
                self.wf(),
                n == self.len(),
                sel == strs(selected_ids@),
                removed@.len() == n,
                head <= queue@.len(),
                queue@.len() == count_true(removed@),
                queue@.len() <= n,
                strs(result@).no_duplicates(),
                forall|k: int| 0 <= k < selected_ids@.len() ==> strs(result@).contains(#[trigger] selected_ids@[k]@),
                forall|x: int|
                    0 <= x < n ==> (#[trigger] removed@[x] <==> strs(result@).contains(self.id_at(x))),
                forall|k: int| 0 <= k < queue@.len() ==> #[trigger] queue@[k] < n,
                forall|k: int| 0 <= k < queue@.len() ==> removed@[#[trigger] queue@[k] as int],
                forall|k: int| 0 <= k < result@.len() ==> branch_member_ok(
                    *self,
                    sel,
                    strs(result@),
                    #[trigger] result@[k]@,
                ),
                walk_settled(*self, removed@, queue@, head as int, head as int),
                forall|x: int| 0 <= x < n && #[trigger] removed@[x] ==> queued(queue@, x),
                forced_by(*self, sel, strs(result@)),
            decreases n - head,
        {
            let q = queue[head];
            head = head + 1;
            let deps = &self.depends_on[q];
            proof {
                assert(indices_below(self.forward_at(q as int), n as int));
            }
            let mut m: usize = 0;
            while m < deps.len()
                invariant
                    self.wf(),
                    n == self.len(),
                    sel == strs(selected_ids@),
                    q < n,
                    removed@[q as int],
                    deps@ == self.forward_at(q as int),
                    m <= deps@.len(),
                    removed@.len() == n,
                    head <= queue@.len(),
                    queue@.len() == count_true(removed@),
                    queue@.len() <= n,
                    strs(result@).no_duplicates(),
                    forall|k: int| 0 <= k < selected_ids@.len() ==> strs(result@).contains(#[trigger] selected_ids@[k]@),
                    forall|x: int|
                        0 <= x < n ==> (#[trigger] removed@[x] <==> strs(result@).contains(self.id_at(x))),
                    forall|k: int| 0 <= k < queue@.len() ==> #[trigger] queue@[k] < n,
                    forall|k: int| 0 <= k < queue@.len() ==> removed@[#[trigger] queue@[k] as int],
                    forall|k: int| 0 <= k < result@.len() ==> branch_member_ok(
                        *self,
                        sel,
                        strs(result@),
                        #[trigger] result@[k]@,
                    ),
                    1 <= head,
                    q == queue@[head - 1],
                    walk_settled(*self, removed@, queue@, head - 1, head - 1),
                    forall|j: int| 0 <= j < m ==> dep_settled(*self, removed@, queue@, head as int, #[trigger] deps@[j] as int),
                    forall|x: int| 0 <= x < n && #[trigger] removed@[x] ==> queued(queue@, x),
                    forced_by(*self, sel, strs(result@)),
                decreases deps@.len() - m,
            {
                let t = deps[m];
                m = m + 1;
                proof {
                    assert(deps@[m - 1] == t);
                }
                if removed[t] {
                    proof {
                        assert(dep_settled(*self, removed@, queue@, head as int, deps@[m - 1] as int));
                    }
                    continue;
                }
                if self.packages[t].is_explicit {
                    proof {
                        assert(self.info_at(t as int).is_explicit);
                        assert(dep_settled(*self, removed@, queue@, head as int, deps@[m - 1] as int));
                    }
                    continue;
                }
                let parents = &self.depended_by[t];
                proof {
                    assert(indices_below(self.reverse_at(t as int), n as int));
                }
                let mut orphan = true;
                let mut k: usize = 0;
                while k < parents.len()
                    invariant
                        parents@ == self.reverse_at(t as int),
                        indices_below(parents@, n as int),
                        removed@.len() == n,
                        k <= parents@.len(),
                        orphan ==> forall|z: int| 0 <= z < k ==> removed@[#[trigger] parents@[z] as int],
                        !orphan ==> exists|z: int| 0 <= z < k && !removed@[#[trigger] parents@[z] as int],
                    decreases parents@.len() - k,
                {
                    if !removed[parents[k]] {
                        orphan = false;
                    }
                    k = k + 1;
                }
                if orphan {
                    let ghost rs = strs(result@);
                    let ghost old_removed = removed@;
                    let ghost old_queue = queue@;
                    let idc = self.ids[t].clone();
                    proof {
                        lemma_count_true_set(removed@, t as int);
                        crate::text::lemma_strs_push(result@, idc);
                        assert(!rs.contains(self.id_at(t as int)));
                    }
                    removed.set(t, true);
                    queue.push(t);
                    result.push(idc);
                    proof {
                        lemma_count_true_le(removed@);
                        let ns = strs(result@);
                        assert(ns == rs.push(self.id_at(t as int)));
                        assert(ns.no_duplicates());
                        assert forall|a: Seq<char>| rs.contains(a) implies ns.contains(a) by {
                            let z = choose|z: int| 0 <= z < rs.len() && rs[z] == a;
                            assert(ns[z] == a);
                        }
                        assert forall|y: int| 0 <= y < n implies (#[trigger] removed@[y] <==> ns.contains(self.id_at(y))) by {
                            if y != t {
                                assert(self.id_at(y) != self.id_at(t as int));
                                if ns.contains(self.id_at(y)) {
                                    let z = choose|z: int| 0 <= z < ns.len() && ns[z] == self.id_at(y);
                                    assert(z < rs.len());
                                    assert(rs[z] == self.id_at(y));
                                }
                            } else {
                                assert(ns[rs.len() as int] == self.id_at(t as int));
                            }
                        }
                        assert forall|k: int| 0 <= k < selected_ids@.len() implies ns.contains(#[trigger] selected_ids@[k]@) by {
                            assert(rs.contains(selected_ids@[k]@));
                        }
                        assert(ns.contains(self.id_at(q as int)));
                        assert(self.forward_at(q as int).contains(t));
                        assert forall|z: int| 0 <= z < self.reverse_at(t as int).len() implies ns.contains(
                            #[trigger] self.id_at(self.reverse_at(t as int)[z] as int),
                        ) by {
                            assert(old_removed[self.reverse_at(t as int)[z] as int]);
                            assert(rs.contains(self.id_at(self.reverse_at(t as int)[z] as int)));
                        }
                        assert(branch_member_ok(*self, sel, ns, self.id_at(t as int)));
                        assert forall|k: int| 0 <= k < result@.len() implies branch_member_ok(
                            *self,
                            sel,
                            ns,
                            #[trigger] result@[k]@,
                        ) by {
                            if k < rs.len() {
                                assert(result@[k]@ == rs[k]);
                                assert(branch_member_ok(*self, sel, rs, rs[k]));
                                if !sel.contains(rs[k]) {
                                    let i = choose|i: int|
                                        #![trigger self.id_at(i)]
                                        0 <= i < self.len() && self.id_at(i) == rs[k] && !self.info_at(i).is_explicit && (forall|kk: int|
                                            0 <= kk < self.reverse_at(i).len() ==> rs.contains(
                                                #[trigger] self.id_at(self.reverse_at(i)[kk] as int),
                                            )) && (exists|qq: int|
                                            0 <= qq < self.len() && rs.contains(#[trigger] self.id_at(qq)) && self.forward_at(qq).contains(
                                                i as usize,
                                            ));
                                    let qq = choose|qq: int|
                                            0 <= qq < self.len() && rs.contains(#[trigger] self.id_at(qq)) && self.forward_at(qq).contains(
                                                i as usize,
                                            );
                                    assert(ns.contains(self.id_at(qq)));
                                    assert forall|kk: int| 0 <= kk < self.reverse_at(i).len() implies ns.contains(
                                        #[trigger] self.id_at(self.reverse_at(i)[kk] as int),
                                    ) by {
                                        assert(rs.contains(self.id_at(self.reverse_at(i)[kk] as int)));
                                    }
                                }
                            } else {
                                assert(result@[k]@ == self.id_at(t as int));
                            }
                        }
                    }
                    proof {
                        lemma_settled_grow(*self, old_removed, old_queue, head - 1, head - 1, t);
                        assert forall|j: int| 0 <= j < m implies dep_settled(
                            *self,
                            removed@,
                            queue@,
                            head as int,
                            #[trigger] deps@[j] as int,
                        ) by {
                            if j < m - 1 {
                                lemma_dep_settled_grow(*self, old_removed, old_queue, head as int, deps@[j] as int, t);
                            }
                        }
                        assert forall|y: int| 0 <= y < n && #[trigger] removed@[y] implies queued(queue@, y) by {
                            if y == t as int {
                                assert(queue@[old_queue.len() as int] as int == y);
                            } else {
                                assert(old_removed[y]);
                                let b = choose|b: int| 0 <= b < old_queue.len() && #[trigger] old_queue[b] as int == y;
                                assert(queue@[b] == old_queue[b]);
                            }
                        }
                        assert(old_removed[q as int]);
                        assert(rs.contains(self.id_at(q as int)));
                        assert forall|z: int| 0 <= z < self.reverse_at(t as int).len() implies rs.contains(
                            #[trigger] self.id_at(self.reverse_at(t as int)[z] as int),
                        ) by {
                            assert(old_removed[self.reverse_at(t as int)[z] as int]);
                        }
                        lemma_forced_grow(*self, sel, rs, q as int, t);
                    }
                } else {
                    proof {
                        let z = choose|z: int| 0 <= z < k && !removed@[#[trigger] parents@[z] as int];
                        assert(self.reverse_at(t as int)[z] == parents@[z]);
                        assert(dep_settled(*self, removed@, queue@, head as int, t as int));
                    }
                }
            }
            proof {
                lemma_settled_advance(*self, removed@, queue@, head - 1);
            }
        }
        proof {
            lemma_walk_closed(*self, removed@, queue@, strs(result@));
        }
        result
    }
}

/// Where the dependency links agree both ways for every package, the
/// removal branch depends only on which ids are selected: branches of two
/// selections with the same members have the same members, whatever order
/// the ids were selected in.
pub proof fn lemma_branch_determined(
    t: DependencyTree,
    sel1: Seq<Seq<char>>,
    r1: Seq<Seq<char>>,
    sel2: Seq<Seq<char>>,
    r2: Seq<Seq<char>>,
)
    requires
        forall|i: int| 0 <= i < t.len() ==> #[trigger] parents_agree(t, i),
        forall|x: Seq<char>| sel1.contains(x) <==> sel2.contains(x),
        removal_branch_ok(t, sel1, r1),
        removal_branch_ok(t, sel2, r2),
    ensures
        forall|x: Seq<char>| r1.contains(x) <==> r2.contains(x),
{
    lemma_branch_monotone(t, sel1, r1, sel2, r2);
    lemma_branch_monotone(t, sel2, r2, sel1, r1);
}

/// Where the dependency links agree both ways for every package, selecting
/// more never shrinks the removal branch: when every id selected first is
/// also selected second, every member of the first branch is a member of
/// the second.
pub proof fn lemma_branch_monotone(
    t: DependencyTree,
    sel1: Seq<Seq<char>>,
    r1: Seq<Seq<char>>,
    sel2: Seq<Seq<char>>,
    r2: Seq<Seq<char>>,
)
    requires
        forall|i: int| 0 <= i < t.len() ==> #[trigger] parents_agree(t, i),
        forall|x: Seq<char>| sel1.contains(x) ==> sel2.contains(x),
        removal_branch_ok(t, sel1, r1),
        removal_branch_ok(t, sel2, r2),
    ensures
        forall|x: Seq<char>| r1.contains(x) ==> r2.contains(x),
{
    let s2 = r2.to_set();
    assert(orphan_closed(t, s2)) by {
        assert forall|q: int, i: usize|
            0 <= q < t.len() && i < t.len() && #[trigger] s2.contains(t.id_at(q)) && #[trigger] t.forward_at(q).contains(i)
                && !t.info_at(i as int).is_explicit && parents_in(t, s2, i as int) implies s2.contains(t.id_at(i as int)) by {
            assert(parents_agree(t, i as int));
        }
    }
    assert forall|k: int| 0 <= k < sel1.len() implies s2.contains(#[trigger] sel1[k]) by {
        assert(sel1.contains(sel1[k]));
        assert(sel2.contains(sel1[k]));
        let w = choose|w: int| 0 <= w < sel2.len() && sel2[w] == sel1[k];
        assert(r2.contains(sel2[w]));
    }
    assert forall|x: Seq<char>| r1.contains(x) implies r2.contains(x) by {
        let k = choose|k: int| 0 <= k < r1.len() && r1[k] == x;
        assert(s2.contains(r1[k]));
    }
}

/// Total installed size of the packages whose ids are in `sel`.
pub open spec fn selected_size(pkgs: Seq<PackageInfo>, sel: Seq<Seq<char>>) -> int
    decreases pkgs.len(),
{
    if pkgs.len() == 0 {
        0
    } else {
        selected_size(pkgs.drop_last(), sel) + if sel.contains(qid(pkgs.last())) {
            pkgs.last().installed_size as int
        } else {
            0
        }
    }
}

proof fn lemma_selected_size_mono(pkgs: Seq<PackageInfo>, sel: Seq<Seq<char>>, k: int)
    requires
        0 <= k <= pkgs.len(),
    ensures
        0 <= selected_size(pkgs.take(k), sel) <= selected_size(pkgs, sel),
    decreases pkgs.len() - k,
{
    if k < pkgs.len() {
        lemma_selected_size_mono(pkgs, sel, k + 1);
        assert(pkgs.take(k + 1).drop_last() =~= pkgs.take(k));
        lemma_selected_size_nonneg(pkgs.take(k), sel);
    } else {
        assert(pkgs.take(k) =~= pkgs);
        lemma_selected_size_nonneg(pkgs, sel);
    }
}

proof fn lemma_selected_size_nonneg(pkgs: Seq<PackageInfo>, sel: Seq<Seq<char>>)
    ensures
        0 <= selected_size(pkgs, sel),
    decreases pkgs.len(),
{
    if pkgs.len() > 0 {
        lemma_selected_size_nonneg(pkgs.drop_last(), sel);
    }
}

/// `p` with its protection flag set to `flag`.
pub open spec fn with_protection(p: PackageInfo, flag: bool) -> PackageInfo {
    PackageInfo { is_protected: flag, ..p }
}

/// Whether `x` is one of `v`.
pub fn contains_string(v: &Vec<String>, x: &String) -> (r: bool)
    ensures
        r == strs(v@).contains(x@),
{
    let mut i: usize = 0;
    while i < v.len()
        invariant
            i <= v.len(),
            forall|k: int| 0 <= k < i ==> v@[k]@ != x@,
        decreases v.len() - i,
    {
        if v[i] == *x {
            proof {
                assert(strs(v@)[i as int] == x@);
            }
            return true;
        }
        i = i + 1;
    }
    proof {
        if strs(v@).contains(x@) {
            let k = choose|k: int| 0 <= k < strs(v@).len() && strs(v@)[k] == x@;
            assert(v@[k]@ == x@);
        }
    }
    false
}

/// `after` is `before` with the packages named in `names` protected:
/// same ids and edges, and each entry's protection flag set when its name
/// is listed (flags already set stay set).
pub open spec fn protection_marked(before: DependencyTree, after: DependencyTree, names: Seq<Seq<char>>) -> bool {
    &&& after.len() == before.len()
    &&& forall|i: int| 0 <= i < before.len() ==> #[trigger] after.id_at(i) == before.id_at(i)
    &&& forall|i: int| 0 <= i < before.len() ==> #[trigger] after.forward_at(i) == before.forward_at(i)
    &&& forall|i: int| 0 <= i < before.len() ==> #[trigger] after.reverse_at(i) == before.reverse_at(i)
    &&& forall|i: int|
        0 <= i < before.len() ==> #[trigger] after.info_at(i) == with_protection(
            before.info_at(i),
            before.info_at(i).is_protected || names.contains(before.info_at(i).name@),
        )
}

impl DependencyTree {
    /// Total installed size of the packages whose ids are in `ids`; ids that
    /// name no package count for nothing, and each package counts once.
    pub fn total_size(&self, ids: &Vec<String>) -> (r: u64)
        requires
            selected_size(self.infos(), strs(ids@)) <= u64::MAX,
        ensures
            r == selected_size(self.infos(), strs(ids@)),
    {
        let ghost sel = strs(ids@);
        let mut total: u64 = 0;
        let mut i: usize = 0;
        while i < self.packages.len()
            invariant
                i <= self.packages@.len(),
                sel == strs(ids@),
                selected_size(self.infos(), sel) <= u64::MAX,
                total == selected_size(self.infos().take(i as int), sel),
            decreases self.packages@.len() - i,
        {
            let id = self.packages[i].qualified_id();
            proof {
                assert(self.infos().take(i + 1).drop_last() =~= self.infos().take(i as int));
                lemma_selected_size_mono(self.infos(), sel, i + 1);
                lemma_selected_size_nonneg(self.infos().take(i as int), sel);
            }
            if contains_string(ids, &id) {
                total = total + self.packages[i].installed_size;
            }
            i = i + 1;
        }
        proof {
            assert(self.infos().take(self.infos().len() as int) =~= self.infos());
        }
        total
    }

    /// The forward edges as (id, ids it depends on), one entry per package.
    pub fn depends_on_map(&self) -> (r: Vec<(String, Vec<String>)>)
        requires
            self.wf(),
        ensures
            r@.len() == self.len(),
            forall|i: int|
                0 <= i < self.len() ==> (#[trigger] r@[i]).0@ == self.id_at(i) && strs(r@[i].1@)
                    == self.deps_of(i),
    {
        let mut r: Vec<(String, Vec<String>)> = Vec::new();
        let mut i: usize = 0;
        while i < self.packages.len()
            invariant
                self.wf(),
                i <= self.len(),
                r@.len() == i,
                forall|k: int|
                    0 <= k < i ==> (#[trigger] r@[k]).0@ == self.id_at(k) && strs(r@[k].1@)
                        == self.deps_of(k),
            decreases self.len() - i,
        {
            proof {
                assert(indices_below(self.forward_at(i as int), self.len() as int));
            }
            let list = self.ids_at(&self.depends_on[i]);
            r.push((self.ids[i].clone(), list));
            i = i + 1;
        }
        r
    }

    /// The reverse edges as (id, ids that depend on it), one entry per
    /// package; a package nothing depends on has an empty list.
    pub fn depended_by_map(&self) -> (r: Vec<(String, Vec<String>)>)
        requires
            self.wf(),
        ensures
            r@.len() == self.len(),
            forall|i: int|
                0 <= i < self.len() ==> (#[trigger] r@[i]).0@ == self.id_at(i) && strs(r@[i].1@)
                    == self.parents_at(i),
    {
        let mut r: Vec<(String, Vec<String>)> = Vec::new();
        let mut i: usize = 0;
        while i < self.packages.len()
            invariant
                self.wf(),
                i <= self.len(),
                r@.len() == i,
                forall|k: int|
                    0 <= k < i ==> (#[trigger] r@[k]).0@ == self.id_at(k) && strs(r@[k].1@)
                        == self.parents_at(k),
            decreases self.len() - i,
        {
            proof {
                assert(indices_below(self.reverse_at(i as int), self.len() as int));
            }
            let list = self.ids_at(&self.depended_by[i]);
            r.push((self.ids[i].clone(), list));
            i = i + 1;
        }
        r
    }

    /// The ids at a list of positions.
    fn ids_at(&self, idx: &Vec<usize>) -> (r: Vec<String>)
        requires
            self.wf(),
            indices_below(idx@, self.len() as int),
        ensures
            strs(r@) == self.ids_of(idx@),
    {
        let mut r: Vec<String> = Vec::new();
        let mut k: usize = 0;
        while k < idx.len()
            invariant
                self.wf(),
                indices_below(idx@, self.len() as int),
                k <= idx@.len(),
                strs(r@) == self.ids_of(idx@.take(k as int)),
            decreases idx@.len() - k,
        {
            let t = idx[k];
            proof {
                assert(t < self.len());
            }
            let s = self.ids[t].clone();
            proof {
                crate::text::lemma_strs_push(r@, s);
                assert(idx@.take(k + 1) =~= idx@.take(k as int).push(t));
                assert(self.ids_of(idx@.take(k + 1)) =~= self.ids_of(idx@.take(k as int)).push(
                    self.id_at(t as int),
                ));
            }
            r.push(s);
            k = k + 1;
        }
        proof {
            assert(idx@.take(idx@.len() as int) =~= idx@);
        }
        r
    }

    /// Marks the packages whose names are in `names` as protected from
    /// removal; nothing else changes.
    pub fn mark_protected(&mut self, names: &Vec<String>)
        requires
            old(self).wf(),
        ensures
            final(self).wf(),
            protection_marked(*old(self), *final(self), strs(names@)),
            final(self).len() == old(self).len(),
            forall|i: int| 0 <= i < old(self).len() ==> #[trigger] final(self).id_at(i) == old(self).id_at(i),
            forall|i: int| 0 <= i < old(self).len() ==> #[trigger] final(self).forward_at(i) == old(self).forward_at(i),
            forall|i: int| 0 <= i < old(self).len() ==> #[trigger] final(self).reverse_at(i) == old(self).reverse_at(i),
            forall|i: int|
                0 <= i < old(self).len() ==> #[trigger] final(self).info_at(i) == with_protection(
                    old(self).info_at(i),
                    old(self).info_at(i).is_protected || strs(names@).contains(
                        old(self).info_at(i).name@,
                    ),
                ),
    {
        let n = self.packages.len();
        let ghost start = *self;
        let mut i: usize = 0;
        while i < n
            invariant
                n == start.len(),
                start.wf(),
                i <= n,
                self.packages@.len() == n,
                self.ids == start.ids,
                self.depends_on == start.depends_on,
                self.depended_by == start.depended_by,
                forall|k: int| 0 <= k < n ==> #[trigger] qid(self.packages@[k]) == qid(start.packages@[k]),
                forall|k: int|
                    i <= k < n ==> #[trigger] self.packages@[k] == start.packages@[k],
                forall|k: int|
                    0 <= k < i ==> #[trigger] self.packages@[k] == with_protection(
                        start.packages@[k],
                        start.packages@[k].is_protected || strs(names@).contains(
                            start.packages@[k].name@,
                        ),
                    ),
            decreases n - i,
        {
            if contains_string(names, &self.packages[i].name) {
                self.packages[i].is_protected = true;
            }
            i = i + 1;
        }
        proof {
            assert forall|k: int| 0 <= k < self.len() implies #[trigger] self.id_at(k) == qid(self.info_at(k)) by {
                assert(start.id_at(k) == qid(start.info_at(k)));
                assert(qid(self.packages@[k]) == qid(start.packages@[k]));
            }
            assert(self.len() == start.len());
            assert forall|a: int, b: int|
                0 <= a < self.len() && 0 <= b < self.len() && a != b implies #[trigger] self.id_at(a)
                    != #[trigger] self.id_at(b) by {
                assert(start.id_at(a) != start.id_at(b));
            }
            assert forall|k: int| 0 <= k < self.len() implies indices_below(#[trigger] self.forward_at(k), self.len() as int) by {
                assert(indices_below(start.forward_at(k), start.len() as int));
            }
            assert forall|k: int| 0 <= k < self.len() implies indices_below(#[trigger] self.reverse_at(k), self.len() as int) by {
                assert(indices_below(start.reverse_at(k), start.len() as int));
            }
        }
    }
}

} // verus!
