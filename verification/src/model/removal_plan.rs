//! Grouping selected packages by source and turning them into commands.

use vstd::prelude::*;

use crate::model::package::PackageInfo;
use crate::model::package_source::{label_text, PackageSource};
use crate::text::{
    chars_of, dec_text, join, join_strings, lemma_strs_push, pieces, push_all, push_decimal, push_str,
    split_char, split_on, split_on_from, string_of, strs,
};
use crate::units::{byte_size_text, format_size};

verus! {

/// Packages grouped by source for removal.
///
/// Each source occurs in at most one group; groups appear in the order in
/// which their source first occurred.
pub struct RemovalPlan {
    pub groups: Vec<(PackageSource, Vec<PackageInfo>)>,
    pub total_size: u64,
}

/// The (source, packages) view of the groups.
pub open spec fn groups_view(g: Seq<(PackageSource, Vec<PackageInfo>)>) -> Seq<
    (PackageSource, Seq<PackageInfo>),
> {
    g.map_values(|e: (PackageSource, Vec<PackageInfo>)| (e.0, e.1@))
}

/// Sum of the installed sizes.
pub open spec fn size_sum(pkgs: Seq<PackageInfo>) -> int
    decreases pkgs.len(),
{
    if pkgs.len() == 0 {
        0
    } else {
        size_sum(pkgs.drop_last()) + pkgs.last().installed_size
    }
}

/// Total number of packages in the groups.
pub open spec fn group_count(g: Seq<(PackageSource, Seq<PackageInfo>)>) -> int
    decreases g.len(),
{
    if g.len() == 0 {
        0
    } else {
        group_count(g.drop_last()) + g.last().1.len()
    }
}

/// The packages of `pkgs` from source `s`, in order.
pub open spec fn from_source(pkgs: Seq<PackageInfo>, s: PackageSource) -> Seq<PackageInfo> {
    pkgs.filter(|p: PackageInfo| p.source == s)
}

proof fn lemma_size_sum_prefix(pkgs: Seq<PackageInfo>, k: int)
    requires
        0 <= k <= pkgs.len(),
    ensures
        0 <= size_sum(pkgs.take(k)) <= size_sum(pkgs),
    decreases pkgs.len() - k,
{
    if k < pkgs.len() {
        lemma_size_sum_prefix(pkgs, k + 1);
        assert(pkgs.take(k + 1).drop_last() =~= pkgs.take(k));
    } else {
        assert(pkgs.take(k) =~= pkgs);
    }
    lemma_size_sum_nonneg(pkgs.take(k));
}

proof fn lemma_size_sum_nonneg(pkgs: Seq<PackageInfo>)
    ensures
        0 <= size_sum(pkgs),
    decreases pkgs.len(),
{
    if pkgs.len() > 0 {
        lemma_size_sum_nonneg(pkgs.drop_last());
    }
}

proof fn lemma_group_count_nonneg(g: Seq<(PackageSource, Seq<PackageInfo>)>)
    ensures
        0 <= group_count(g),
    decreases g.len(),
{
    if g.len() > 0 {
        lemma_group_count_nonneg(g.drop_last());
    }
}

/// Some group has source `s`.
pub open spec fn has_group(g: Seq<(PackageSource, Vec<PackageInfo>)>, s: PackageSource) -> bool {
    exists|a: int| 0 <= a < g.len() && #[trigger] g[a].0 == s
}

/// The groups of `pkgs`: distinct sources, each holding its packages in
/// order, and a group for every source that occurs.
pub open spec fn groups_ok(g: Seq<(PackageSource, Vec<PackageInfo>)>, pkgs: Seq<PackageInfo>) -> bool {
    &&& forall|a: int, b: int| 0 <= a < b < g.len() ==> #[trigger] g[a].0 != #[trigger] g[b].0
    &&& forall|a: int| 0 <= a < g.len() ==> (#[trigger] g[a]).1@ == from_source(pkgs, g[a].0)
    &&& forall|s: PackageSource| #[trigger] has_group(g, s) <==> from_source(pkgs, s).len() > 0
}

fn find_group(groups: &Vec<(PackageSource, Vec<PackageInfo>)>, src: PackageSource) -> (r: Option<usize>)
    ensures
        match r {
            Some(g) => g < groups@.len() && groups@[g as int].0 == src,
            None => forall|a: int| 0 <= a < groups@.len() ==> #[trigger] groups@[a].0 != src,
        },
{
    let mut g: usize = 0;
    while g < groups.len()
        invariant
            g <= groups@.len(),
            forall|a: int| 0 <= a < g ==> #[trigger] groups@[a].0 != src,
        decreases groups@.len() - g,
    {
        if groups[g].0 == src {
            return Some(g);
        }
        g = g + 1;
    }
    None
}

proof fn lemma_in_from_source(pkgs: Seq<PackageInfo>, i: int)
    requires
        0 <= i < pkgs.len(),
    ensures
        from_source(pkgs, pkgs[i].source).len() > 0,
{
    let s = pkgs[i].source;
    assert(pkgs.contains(pkgs[i]));
    let f = |p: PackageInfo| p.source == s;
    pkgs.lemma_filter_contains_rev(f, pkgs[i]);
    assert(from_source(pkgs, s) =~= pkgs.filter(f));
    assert(pkgs.filter(f).contains(pkgs[i]));
}

proof fn lemma_group_count_grow(
    g: Seq<(PackageSource, Seq<PackageInfo>)>,
    a: int,
    v: Seq<PackageInfo>,
)
    requires
        0 <= a < g.len(),
        v.len() == g[a].1.len() + 1,
    ensures
        group_count(g.update(a, (g[a].0, v))) == group_count(g) + 1,
    decreases g.len(),
{
    let u = g.update(a, (g[a].0, v));
    if a == g.len() - 1 {
        assert(u.drop_last() =~= g.drop_last());
    } else {
        assert(u.drop_last() =~= g.drop_last().update(a, (g[a].0, v)));
        lemma_group_count_grow(g.drop_last(), a, v);
    }
}

fn add_to_groups(
    groups: &mut Vec<(PackageSource, Vec<PackageInfo>)>,
    pkg: PackageInfo,
    Ghost(prefix): Ghost<Seq<PackageInfo>>,
)
    requires
        groups_ok(old(groups)@, prefix),
    ensures
        groups_ok(final(groups)@, prefix.push(pkg)),
        group_count(groups_view(final(groups)@)) == group_count(groups_view(old(groups)@)) + 1,
{
    let src = pkg.source;
    let ghost next = prefix.push(pkg);
    proof {
        assert forall|s: PackageSource| #[trigger] from_source(next, s) == if pkg.source == s {
            from_source(prefix, s).push(pkg)
        } else {
            from_source(prefix, s)
        } by {
            prefix.lemma_filter_push(pkg, |p: PackageInfo| p.source == s);
        }
    }
    let found = find_group(groups, src);
    let ghost before = groups@;
    if let Some(g) = found {
        let ghost old_g = groups@[g as int];
        groups[g].1.push(pkg);
        proof {
            assert(groups@[g as int].0 == old_g.0);
            assert(groups@[g as int].1@ == old_g.1@.push(pkg));
            assert(groups@.len() == before.len());
            assert forall|a: int| 0 <= a < groups@.len() && a != g implies #[trigger] groups@[a] == before[a] by {}
            lemma_group_count_grow(groups_view(before), g as int, groups@[g as int].1@);
            assert(groups_view(groups@) =~= groups_view(before).update(
                g as int,
                (groups_view(before)[g as int].0, groups@[g as int].1@),
            ));
        }
        proof {
            assert forall|a: int| 0 <= a < groups@.len() implies (#[trigger] groups@[a]).1@ == from_source(
                next,
                groups@[a].0,
            ) by {
                if a != g {
                    assert(groups@[a] == before[a]);
                }
            }
            assert forall|s: PackageSource| #[trigger] has_group(groups@, s) <==> from_source(next, s).len()
                > 0 by {
                if has_group(groups@, s) {
                    let a = choose|a: int| 0 <= a < groups@.len() && #[trigger] groups@[a].0 == s;
                    assert(before[a].0 == s);
                    assert(has_group(before, s));
                }
                if has_group(before, s) {
                    let a = choose|a: int| 0 <= a < before.len() && #[trigger] before[a].0 == s;
                    assert(groups@[a].0 == s);
                }
                if s == src {
                    assert(groups@[g as int].0 == s);
                }
            }
            assert forall|a: int, b: int| 0 <= a < b < groups@.len() implies #[trigger] groups@[a].0
                != #[trigger] groups@[b].0 by {
                assert(groups@[a].0 == before[a].0);
                assert(groups@[b].0 == before[b].0);
            }
        }
    } else {
        let g = groups.len();
        proof {
            assert(!has_group(before, src));
            assert(from_source(prefix, src).len() == 0);
        }
        let mut v: Vec<PackageInfo> = Vec::new();
        v.push(pkg);
        groups.push((src, v));
        proof {
            assert(groups_view(groups@).drop_last() =~= groups_view(before));
            assert forall|a: int| 0 <= a < groups@.len() implies (#[trigger] groups@[a]).1@ == from_source(
                next,
                groups@[a].0,
            ) by {
                if a < before.len() {
                    assert(groups@[a] == before[a]);
                    assert(before[a].0 != src);
                } else {
                    assert(from_source(prefix, src) =~= Seq::<PackageInfo>::empty());
                    assert(groups@[a].1@ =~= seq![pkg]);
                    assert(from_source(next, src) =~= seq![pkg]);
                }
            }
            assert forall|s: PackageSource| #[trigger] has_group(groups@, s) <==> from_source(next, s).len()
                > 0 by {
                if has_group(groups@, s) {
                    let a = choose|a: int| 0 <= a < groups@.len() && #[trigger] groups@[a].0 == s;
                    if a < before.len() {
                        assert(before[a].0 == s);
                        assert(has_group(before, s));
                    }
                }
                if has_group(before, s) {
                    let a = choose|a: int| 0 <= a < before.len() && #[trigger] before[a].0 == s;
                    assert(groups@[a].0 == s);
                }
                if s == src {
                    assert(groups@[before.len() as int].0 == s);
                }
            }
            assert forall|a: int, b: int| 0 <= a < b < groups@.len() implies #[trigger] groups@[a].0
                != #[trigger] groups@[b].0 by {
                assert(groups@[a].0 == before[a].0);
                if b < before.len() {
                    assert(groups@[b].0 == before[b].0);
                } else {
                    assert(has_group(before, before[a].0));
                }
            }
        }
    }
}

/// Whether `plan` groups `pkgs` by source: one group per source that
/// occurs, each holding that source's packages in their order, with the
/// sizes added up.
pub open spec fn grouped(pkgs: Seq<PackageInfo>, plan: RemovalPlan) -> bool {
    &&& plan.total_size == size_sum(pkgs)
    &&& forall|a: int, b: int| 0 <= a < b < plan.groups@.len() ==> #[trigger] plan.groups@[a].0 != #[trigger] plan.groups@[b].0
    &&& forall|a: int| 0 <= a < plan.groups@.len() ==> (#[trigger] plan.groups@[a]).1@ == from_source(pkgs, plan.groups@[a].0)
    &&& forall|i: int| 0 <= i < pkgs.len() ==> has_group(plan.groups@, #[trigger] pkgs[i].source)
    &&& group_count(groups_view(plan.groups@)) == pkgs.len()
    &&& forall|a: int| 0 <= a < plan.groups@.len() ==> (#[trigger] plan.groups@[a]).1@.len() > 0
}

impl RemovalPlan {
    /// Groups packages by source, keeping their order within each source,
    /// and adds up their sizes.
    pub fn from_packages(packages: Vec<PackageInfo>) -> (plan: Self)
        requires
            size_sum(packages@) <= u64::MAX,
        ensures
            plan.total_size == size_sum(packages@),
            forall|a: int, b: int|
                0 <= a < b < plan.groups@.len() ==> #[trigger] plan.groups@[a].0
                    != #[trigger] plan.groups@[b].0,
            forall|a: int|
                0 <= a < plan.groups@.len() ==> (#[trigger] plan.groups@[a]).1@ == from_source(
                    packages@,
                    plan.groups@[a].0,
                ),
            forall|i: int|
                0 <= i < packages@.len() ==> has_group(plan.groups@, #[trigger] packages@[i].source),
            group_count(groups_view(plan.groups@)) == packages@.len(),
            grouped(packages@, plan),
    {
        let ghost all = packages@;
        let n0 = packages.len();
        let mut total: u64 = 0;
        let mut i: usize = 0;
        while i < packages.len()
            invariant
                i <= packages@.len(),
                size_sum(packages@) <= u64::MAX,
                total == size_sum(packages@.take(i as int)),
            decreases packages@.len() - i,
        {
            proof {
                assert(packages@.take(i + 1).drop_last() =~= packages@.take(i as int));
                lemma_size_sum_prefix(packages@, i + 1);
            }
            total = total + packages[i].installed_size;
            i = i + 1;
        }
        proof {
            assert(packages@.take(packages@.len() as int) =~= packages@);
        }
        let mut groups: Vec<(PackageSource, Vec<PackageInfo>)> = Vec::new();
        let mut rest = packages;
        let mut done: usize = 0;
        proof {
            assert forall|src: PackageSource| #[trigger] has_group(groups@, src) <==> from_source(
                all.take(0),
                src,
            ).len() > 0 by {
                assert(all.take(0) =~= Seq::<PackageInfo>::empty());
            }
        }
        while rest.len() > 0
            invariant
                all.len() == n0,
                done + rest@.len() == all.len(),
                rest@ == all.skip(done as int),
                groups_ok(groups@, all.take(done as int)),
                group_count(groups_view(groups@)) == done,
            decreases rest@.len(),
        {
            let pkg = rest.remove(0);
            proof {
                assert(pkg == all[done as int]);
                assert(all.take(done + 1) =~= all.take(done as int).push(pkg));
                assert(rest@ =~= all.skip(done + 1));
            }
            add_to_groups(&mut groups, pkg, Ghost(all.take(done as int)));
            done = done + 1;
        }
        proof {
            assert(all.take(done as int) =~= all);
            assert forall|i: int| 0 <= i < all.len() implies has_group(groups@, #[trigger] all[i].source) by {
                lemma_in_from_source(all, i);
                assert(has_group(groups@, all[i].source));
            }
            assert forall|a: int| 0 <= a < groups@.len() implies (#[trigger] groups@[a]).1@.len() > 0 by {
                assert(has_group(groups@, groups@[a].0));
            }
        }
        RemovalPlan { groups, total_size: total }
    }

    /// Number of packages in the plan.
    pub fn total_packages(&self) -> (r: usize)
        requires
            group_count(groups_view(self.groups@)) <= usize::MAX,
        ensures
            r == group_count(groups_view(self.groups@)),
    {
        let ghost g = groups_view(self.groups@);
        let mut total: usize = 0;
        let mut i: usize = 0;
        while i < self.groups.len()
            invariant
                i <= self.groups@.len(),
                g == groups_view(self.groups@),
                group_count(g) <= usize::MAX,
                total == group_count(g.take(i as int)),
            decreases self.groups@.len() - i,
        {
            proof {
                assert(g.take(i + 1).drop_last() =~= g.take(i as int));
                lemma_group_count_prefix(g, i + 1);
            }
            total = total + self.groups[i].1.len();
            i = i + 1;
        }
        proof {
            assert(g.take(g.len() as int) =~= g);
        }
        total
    }
}

proof fn lemma_group_count_prefix(g: Seq<(PackageSource, Seq<PackageInfo>)>, k: int)
    requires
        0 <= k <= g.len(),
    ensures
        0 <= group_count(g.take(k)) <= group_count(g),
    decreases g.len() - k,
{
    if k < g.len() {
        lemma_group_count_prefix(g, k + 1);
        assert(g.take(k + 1).drop_last() =~= g.take(k));
    } else {
        assert(g.take(k) =~= g);
    }
    lemma_group_count_nonneg(g.take(k));
}

// ---------------------------------------------------------------------------
// Commands
// ---------------------------------------------------------------------------

/// One command that removes packages.
pub struct RemovalCommand {
    pub source: PackageSource,
    /// The command line as shown to the user.
    pub display: String,
    /// The program to run.
    pub program: String,
    /// Its arguments, one element per argument.
    pub args: Vec<String>,
    /// The names of the packages the command removes.
    pub packages: Vec<String>,
}

/// A command as plain sequences.
#[verifier::ext_equal]
pub struct CommandView {
    pub source: PackageSource,
    pub display: Seq<char>,
    pub program: Seq<char>,
    pub args: Seq<Seq<char>>,
    pub packages: Seq<Seq<char>>,
}

pub open spec fn command_view(c: RemovalCommand) -> CommandView {
    CommandView {
        source: c.source,
        display: c.display@,
        program: c.program@,
        args: strs(c.args@),
        packages: strs(c.packages@),
    }
}

pub open spec fn command_views(cs: Seq<RemovalCommand>) -> Seq<CommandView> {
    cs.map_values(|c: RemovalCommand| command_view(c))
}

/// The package names of `pkgs`, in order.
pub open spec fn names(pkgs: Seq<PackageInfo>) -> Seq<Seq<char>> {
    pkgs.map_values(|p: PackageInfo| p.name@)
}

/// One command for many items: `shown` followed by the items separated by
/// spaces, running `program` with `lead` and then the items.
pub open spec fn batch(
    source: PackageSource,
    program: Seq<char>,
    lead: Seq<Seq<char>>,
    shown: Seq<char>,
    items: Seq<Seq<char>>,
    pkg_names: Seq<Seq<char>>,
) -> CommandView {
    CommandView {
        source,
        display: shown + join(items, " "@),
        program,
        args: lead + items,
        packages: pkg_names,
    }
}

/// One command per package: `shown` followed by the name, running
/// `program` with `lead` and then the name.
pub open spec fn per_package(
    source: PackageSource,
    program: Seq<char>,
    lead: Seq<Seq<char>>,
    shown: Seq<char>,
    pkgs: Seq<PackageInfo>,
) -> Seq<CommandView> {
    pkgs.map_values(
        |p: PackageInfo|
            CommandView {
                source,
                display: shown + p.name@,
                program,
                args: lead.push(p.name@),
                packages: seq![p.name@],
            },
    )
}

/// The first component after the root of an absolute path, given the
/// pieces between its slashes: empty pieces and `.` are skipped.
pub open spec fn first_component(pieces: Seq<Seq<char>>) -> Option<Seq<char>>
    decreases pieces.len(),
{
    if pieces.len() == 0 {
        None
    } else if pieces[0].len() == 0 || pieces[0] == "."@ {
        first_component(pieces.drop_first())
    } else {
        Some(pieces[0])
    }
}

/// `Path::new(path).starts_with("/" + dir)` for a single directory name.
pub open spec fn path_under(path: Seq<char>, dir: Seq<char>) -> bool {
    path.len() > 0 && path[0] == '/' && first_component(split_on(path.drop_first(), '/')) == Some(
        dir,
    )
}

/// Paths that only root may remove: under /opt, /usr, /bin or /sbin.
pub open spec fn needs_root(path: Seq<char>) -> bool {
    path_under(path, "opt"@) || path_under(path, "usr"@) || path_under(path, "bin"@) || path_under(
        path,
        "sbin"@,
    )
}

proof fn lemma_split_first_piece(w: Seq<char>, rest: Seq<char>, cur: Seq<char>)
    requires
        !w.contains('/'),
        rest.len() == 0 || rest[0] == '/',
    ensures
        split_on_from(w + rest, '/', cur).len() >= 1,
        split_on_from(w + rest, '/', cur)[0] == cur + w,
    decreases w.len(),
{
    if w.len() == 0 {
        assert(w + rest =~= rest);
        assert(cur + w =~= cur);
        if rest.len() > 0 {
            crate::text::lemma_split_on_from_nonempty(rest.drop_first(), '/', seq![]);
        }
    } else {
        assert(w[0] != '/') by {
            assert(w.contains(w[0]) ==> w[0] != '/');
        }
        assert((w + rest)[0] == w[0]);
        assert((w + rest).drop_first() =~= w.drop_first() + rest);
        assert(!w.drop_first().contains('/')) by {
            if w.drop_first().contains('/') {
                let k = choose|k: int| 0 <= k < w.drop_first().len() && w.drop_first()[k] == '/';
                assert(w[k + 1] == '/');
            }
        }
        lemma_split_first_piece(w.drop_first(), rest, cur.push(w[0]));
        assert(cur.push(w[0]) + w.drop_first() =~= cur + w);
    }
}

/// Paths under `/opt`, `/usr`, `/bin` and `/sbin` belong to the system:
/// removing the directory itself, or anything below it, needs root.
pub proof fn lemma_system_paths_need_root(dir: Seq<char>, rest: Seq<char>)
    requires
        dir == "opt"@ || dir == "usr"@ || dir == "bin"@ || dir == "sbin"@,
        rest.len() == 0 || rest[0] == '/',
    ensures
        needs_root("/"@ + dir + rest),
{
    reveal_strlit("opt");
    reveal_strlit("usr");
    reveal_strlit("bin");
    reveal_strlit("sbin");
    reveal_strlit("/");
    reveal_strlit(".");
    let path = "/"@ + dir + rest;
    assert(path.drop_first() =~= dir + rest);
    assert(!dir.contains('/'));
    lemma_split_first_piece(dir, rest, seq![]);
    assert(Seq::<char>::empty() + dir =~= dir);
    let ps = split_on(path.drop_first(), '/');
    assert(ps[0] == dir);
    assert(dir.len() > 0 && dir != "."@);
    assert(first_component(ps) == Some(dir));
    assert(path_under(path, dir));
}

/// Paths under any other top directory, and relative paths, belong to the
/// user: removing them needs no root.
pub proof fn lemma_other_paths_need_no_root(dir: Seq<char>, rest: Seq<char>)
    requires
        dir.len() > 0,
        !dir.contains('/'),
        dir != "."@,
        dir != "opt"@ && dir != "usr"@ && dir != "bin"@ && dir != "sbin"@,
        rest.len() == 0 || rest[0] == '/',
    ensures
        !needs_root("/"@ + dir + rest),
        !needs_root(dir + rest),
{
    reveal_strlit("/");
    let path = "/"@ + dir + rest;
    assert(path.drop_first() =~= dir + rest);
    lemma_split_first_piece(dir, rest, seq![]);
    assert(Seq::<char>::empty() + dir =~= dir);
    let ps = split_on(path.drop_first(), '/');
    assert(ps[0] == dir);
    assert(first_component(ps) == Some(dir));
    assert((dir + rest)[0] == dir[0]);
    assert(dir.contains(dir[0]));
}

pub open spec fn root_files(pkgs: Seq<PackageInfo>) -> Seq<PackageInfo> {
    pkgs.filter(|p: PackageInfo| p.install_path is Some && needs_root(p.install_path->0@))
}

pub open spec fn user_files(pkgs: Seq<PackageInfo>) -> Seq<PackageInfo> {
    pkgs.filter(|p: PackageInfo| p.install_path is Some && !needs_root(p.install_path->0@))
}

pub open spec fn paths(pkgs: Seq<PackageInfo>) -> Seq<Seq<char>> {
    pkgs.map_values(|p: PackageInfo| p.install_path->0@)
}

/// Removal of installed files: one privileged `rm` for paths that need
/// root, one plain `rm` for the others; packages without a path are left
/// out.
pub open spec fn file_commands(source: PackageSource, pkgs: Seq<PackageInfo>) -> Seq<CommandView> {
    let root = root_files(pkgs);
    let user = user_files(pkgs);
    (if root.len() > 0 {
        seq![batch(source, "pkexec"@, seq!["rm"@, "-rf"@], "pkexec rm -rf "@, paths(root), names(root))]
    } else {
        seq![]
    }) + (if user.len() > 0 {
        seq![batch(source, "rm"@, seq!["-rf"@], "rm -rf "@, paths(user), names(user))]
    } else {
        seq![]
    })
}

/// The commands for one group.
pub open spec fn group_commands(source: PackageSource, pkgs: Seq<PackageInfo>) -> Seq<CommandView> {
    match source {
        PackageSource::Pacman | PackageSource::Aur => seq![
            batch(
                source,
                "pkexec"@,
                seq!["pacman"@, "-Rns"@, "--noconfirm"@],
                "pkexec pacman -Rns --noconfirm "@,
                names(pkgs),
                names(pkgs),
            ),
        ],
        PackageSource::Flatpak => per_package(
            source,
            "flatpak"@,
            seq!["uninstall"@, "-y"@],
            "flatpak uninstall -y "@,
            pkgs,
        ),
        PackageSource::AppImage | PackageSource::Wine | PackageSource::Desktop => file_commands(
            source,
            pkgs,
        ),
        PackageSource::Snap => per_package(source, "snap"@, seq!["remove"@], "snap remove "@, pkgs),
        PackageSource::Pip => seq![
            batch(
                source,
                "pip"@,
                seq!["uninstall"@, "-y"@],
                "pip uninstall -y "@,
                names(pkgs),
                names(pkgs),
            ),
        ],
        PackageSource::Npm => seq![
            batch(
                source,
                "npm"@,
                seq!["uninstall"@, "-g"@],
                "npm uninstall -g "@,
                names(pkgs),
                names(pkgs),
            ),
        ],
        PackageSource::Cargo => per_package(
            source,
            "cargo"@,
            seq!["uninstall"@],
            "cargo uninstall "@,
            pkgs,
        ),
    }
}

/// Packages removed by deleting their files (AppImages, Wine programs,
/// desktop entries) with an installed path are removed by an `rm -rf` of
/// that path, run through `pkexec` when the path needs root and directly
/// otherwise; the command names the package.
pub proof fn lemma_file_removal_command(source: PackageSource, pkgs: Seq<PackageInfo>, i: int)
    requires
        source == PackageSource::AppImage || source == PackageSource::Wine || source
            == PackageSource::Desktop,
        0 <= i < pkgs.len(),
        pkgs[i].install_path is Some,
    ensures
        needs_root(pkgs[i].install_path->0@) ==> exists|k: int|
            0 <= k < group_commands(source, pkgs).len() && {
                let c = #[trigger] group_commands(source, pkgs)[k];
                &&& c.program == "pkexec"@
                &&& c.args.len() >= 2 && c.args[0] == "rm"@ && c.args[1] == "-rf"@
                &&& c.args.contains(pkgs[i].install_path->0@)
                &&& c.packages.contains(pkgs[i].name@)
            },
        !needs_root(pkgs[i].install_path->0@) ==> exists|k: int|
            0 <= k < group_commands(source, pkgs).len() && {
                let c = #[trigger] group_commands(source, pkgs)[k];
                &&& c.program == "rm"@
                &&& c.args.len() >= 1 && c.args[0] == "-rf"@
                &&& c.args.contains(pkgs[i].install_path->0@)
                &&& c.packages.contains(pkgs[i].name@)
            },
{
    broadcast use vstd::seq_lib::group_filter_ensures;
    let path = pkgs[i].install_path->0@;
    let root = root_files(pkgs);
    let user = user_files(pkgs);
    let cmds = group_commands(source, pkgs);
    assert(cmds == file_commands(source, pkgs));
    if needs_root(path) {
        assert(root.contains(pkgs[i]));
        let j = choose|j: int| 0 <= j < root.len() && root[j] == pkgs[i];
        let c = batch(source, "pkexec"@, seq!["rm"@, "-rf"@], "pkexec rm -rf "@, paths(root), names(root));
        assert(cmds[0] == c);
        assert(c.args[2 + j] == path);
        assert(c.packages[j] == pkgs[i].name@);
        assert(c.args[0] == "rm"@ && c.args[1] == "-rf"@);
    } else {
        assert(user.contains(pkgs[i]));
        let j = choose|j: int| 0 <= j < user.len() && user[j] == pkgs[i];
        let c = batch(source, "rm"@, seq!["-rf"@], "rm -rf "@, paths(user), names(user));
        let k: int = if root.len() > 0 { 1 } else { 0 };
        assert(cmds[k] == c);
        assert(c.args[1 + j] == path);
        assert(c.packages[j] == pkgs[i].name@);
        assert(c.args[0] == "-rf"@);
    }
}

/// The commands for all groups, group after group.
pub open spec fn plan_commands(g: Seq<(PackageSource, Seq<PackageInfo>)>) -> Seq<CommandView>
    decreases g.len(),
{
    if g.len() == 0 {
        seq![]
    } else {
        plan_commands(g.drop_last()) + group_commands(g.last().0, g.last().1)
    }
}

/// The line a command runs: its program and arguments, separated by spaces.
pub open spec fn command_line(c: CommandView) -> Seq<char> {
    join(seq![c.program] + c.args, " "@)
}

proof fn lemma_join_append(a: Seq<Seq<char>>, b: Seq<Seq<char>>, sep: Seq<char>)
    requires
        a.len() > 0,
        b.len() > 0,
    ensures
        join(a + b, sep) == join(a, sep) + sep + join(b, sep),
    decreases b.len(),
{
    let ab = a + b;
    if b.len() == 1 {
        assert(ab.drop_last() =~= a);
        assert(ab.last() == b[0]);
    } else {
        lemma_join_append(a, b.drop_last(), sep);
        assert(ab.drop_last() =~= a + b.drop_last());
        assert(ab.last() == b.last());
        assert(join(ab, sep) =~= join(a, sep) + sep + join(b, sep));
    }
}

/// Whether `shown` is the program and the leading arguments, each followed
/// by a space.
pub open spec fn shows_prefix(program: Seq<char>, lead: Seq<Seq<char>>, shown: Seq<char>) -> bool {
    shown == join(seq![program] + lead, " "@) + " "@
}

proof fn lemma_batch_shown(
    source: PackageSource,
    program: Seq<char>,
    lead: Seq<Seq<char>>,
    shown: Seq<char>,
    items: Seq<Seq<char>>,
    pkg_names: Seq<Seq<char>>,
)
    requires
        shows_prefix(program, lead, shown),
        items.len() > 0,
    ensures
        batch(source, program, lead, shown, items, pkg_names).display == command_line(
            batch(source, program, lead, shown, items, pkg_names),
        ),
{
    lemma_join_append(seq![program] + lead, items, " "@);
    assert(seq![program] + (lead + items) =~= (seq![program] + lead) + items);
}

proof fn lemma_per_package_shown(
    source: PackageSource,
    program: Seq<char>,
    lead: Seq<Seq<char>>,
    shown: Seq<char>,
    pkgs: Seq<PackageInfo>,
)
    requires
        shows_prefix(program, lead, shown),
    ensures
        forall|k: int|
            0 <= k < pkgs.len() ==> (#[trigger] per_package(source, program, lead, shown, pkgs)[k]).display
                == command_line(per_package(source, program, lead, shown, pkgs)[k]),
{
    assert forall|k: int| 0 <= k < pkgs.len() implies (#[trigger] per_package(source, program, lead, shown, pkgs)[k]).display
        == command_line(per_package(source, program, lead, shown, pkgs)[k]) by {
        let c = per_package(source, program, lead, shown, pkgs)[k];
        lemma_join_append(seq![program] + lead, seq![pkgs[k].name@], " "@);
        assert(seq![program] + lead.push(pkgs[k].name@) =~= (seq![program] + lead) + seq![pkgs[k].name@]);
    }
}

proof fn lemma_templates_shown()
    ensures
        shows_prefix("pkexec"@, seq!["pacman"@, "-Rns"@, "--noconfirm"@], "pkexec pacman -Rns --noconfirm "@),
        shows_prefix("flatpak"@, seq!["uninstall"@, "-y"@], "flatpak uninstall -y "@),
        shows_prefix("pkexec"@, seq!["rm"@, "-rf"@], "pkexec rm -rf "@),
        shows_prefix("rm"@, seq!["-rf"@], "rm -rf "@),
        shows_prefix("snap"@, seq!["remove"@], "snap remove "@),
        shows_prefix("pip"@, seq!["uninstall"@, "-y"@], "pip uninstall -y "@),
        shows_prefix("npm"@, seq!["uninstall"@, "-g"@], "npm uninstall -g "@),
        shows_prefix("cargo"@, seq!["uninstall"@], "cargo uninstall "@),
{
    reveal_strlit("pkexec");
    reveal_strlit("pacman");
    reveal_strlit("-Rns");
    reveal_strlit("--noconfirm");
    reveal_strlit("pkexec pacman -Rns --noconfirm ");
    reveal_strlit("flatpak");
    reveal_strlit("uninstall");
    reveal_strlit("-y");
    reveal_strlit("flatpak uninstall -y ");
    reveal_strlit("rm");
    reveal_strlit("-rf");
    reveal_strlit("pkexec rm -rf ");
    reveal_strlit("rm -rf ");
    reveal_strlit("snap");
    reveal_strlit("remove");
    reveal_strlit("snap remove ");
    reveal_strlit("pip");
    reveal_strlit("pip uninstall -y ");
    reveal_strlit("npm");
    reveal_strlit("-g");
    reveal_strlit("npm uninstall -g ");
    reveal_strlit("cargo");
    reveal_strlit("cargo uninstall ");
    reveal_strlit(" ");
    let sp = " "@;
    assert(join(seq!["pkexec"@, "pacman"@, "-Rns"@, "--noconfirm"@], sp) + sp =~= "pkexec pacman -Rns --noconfirm "@) by {
        reveal_with_fuel(join, 4);
    }
    assert(seq!["pkexec"@] + seq!["pacman"@, "-Rns"@, "--noconfirm"@] =~= seq!["pkexec"@, "pacman"@, "-Rns"@, "--noconfirm"@]);
    assert(join(seq!["flatpak"@, "uninstall"@, "-y"@], sp) + sp =~= "flatpak uninstall -y "@) by {
        reveal_with_fuel(join, 3);
    }
    assert(seq!["flatpak"@] + seq!["uninstall"@, "-y"@] =~= seq!["flatpak"@, "uninstall"@, "-y"@]);
    assert(join(seq!["pkexec"@, "rm"@, "-rf"@], sp) + sp =~= "pkexec rm -rf "@) by {
        reveal_with_fuel(join, 3);
    }
    assert(seq!["pkexec"@] + seq!["rm"@, "-rf"@] =~= seq!["pkexec"@, "rm"@, "-rf"@]);
    assert(join(seq!["rm"@, "-rf"@], sp) + sp =~= "rm -rf "@) by {
        reveal_with_fuel(join, 2);
    }
    assert(seq!["rm"@] + seq!["-rf"@] =~= seq!["rm"@, "-rf"@]);
    assert(join(seq!["snap"@, "remove"@], sp) + sp =~= "snap remove "@) by {
        reveal_with_fuel(join, 2);
    }
    assert(seq!["snap"@] + seq!["remove"@] =~= seq!["snap"@, "remove"@]);
    assert(join(seq!["pip"@, "uninstall"@, "-y"@], sp) + sp =~= "pip uninstall -y "@) by {
        reveal_with_fuel(join, 3);
    }
    assert(seq!["pip"@] + seq!["uninstall"@, "-y"@] =~= seq!["pip"@, "uninstall"@, "-y"@]);
    assert(join(seq!["npm"@, "uninstall"@, "-g"@], sp) + sp =~= "npm uninstall -g "@) by {
        reveal_with_fuel(join, 3);
    }
    assert(seq!["npm"@] + seq!["uninstall"@, "-g"@] =~= seq!["npm"@, "uninstall"@, "-g"@]);
    assert(join(seq!["cargo"@, "uninstall"@], sp) + sp =~= "cargo uninstall "@) by {
        reveal_with_fuel(join, 2);
    }
    assert(seq!["cargo"@] + seq!["uninstall"@] =~= seq!["cargo"@, "uninstall"@]);
}

proof fn lemma_group_shown(source: PackageSource, pkgs: Seq<PackageInfo>)
    requires
        pkgs.len() > 0,
    ensures
        forall|k: int|
            0 <= k < group_commands(source, pkgs).len() ==> (#[trigger] group_commands(source, pkgs)[k]).display
                == command_line(group_commands(source, pkgs)[k]),
{
    lemma_templates_shown();
    let cs = group_commands(source, pkgs);
    match source {
        PackageSource::Pacman | PackageSource::Aur => {
            lemma_batch_shown(
                source,
                "pkexec"@,
                seq!["pacman"@, "-Rns"@, "--noconfirm"@],
                "pkexec pacman -Rns --noconfirm "@,
                names(pkgs),
                names(pkgs),
            );
        },
        PackageSource::Flatpak => {
            lemma_per_package_shown(source, "flatpak"@, seq!["uninstall"@, "-y"@], "flatpak uninstall -y "@, pkgs);
        },
        PackageSource::AppImage | PackageSource::Wine | PackageSource::Desktop => {
            let root = root_files(pkgs);
            let user = user_files(pkgs);
            let a: Seq<CommandView> = if root.len() > 0 {
                lemma_batch_shown(
                    source,
                    "pkexec"@,
                    seq!["rm"@, "-rf"@],
                    "pkexec rm -rf "@,
                    paths(root),
                    names(root),
                );
                seq![batch(source, "pkexec"@, seq!["rm"@, "-rf"@], "pkexec rm -rf "@, paths(root), names(root))]
            } else {
                seq![]
            };
            let b: Seq<CommandView> = if user.len() > 0 {
                lemma_batch_shown(source, "rm"@, seq!["-rf"@], "rm -rf "@, paths(user), names(user));
                seq![batch(source, "rm"@, seq!["-rf"@], "rm -rf "@, paths(user), names(user))]
            } else {
                seq![]
            };
            assert(cs == a + b);
            assert forall|k: int| 0 <= k < cs.len() implies (#[trigger] cs[k]).display == command_line(cs[k]) by {
                if k < a.len() {
                    assert(cs[k] == a[k]);
                } else {
                    assert(cs[k] == b[k - a.len()]);
                }
            }
        },
        PackageSource::Snap => {
            lemma_per_package_shown(source, "snap"@, seq!["remove"@], "snap remove "@, pkgs);
        },
        PackageSource::Pip => {
            lemma_batch_shown(source, "pip"@, seq!["uninstall"@, "-y"@], "pip uninstall -y "@, names(pkgs), names(pkgs));
        },
        PackageSource::Npm => {
            lemma_batch_shown(source, "npm"@, seq!["uninstall"@, "-g"@], "npm uninstall -g "@, names(pkgs), names(pkgs));
        },
        PackageSource::Cargo => {
            lemma_per_package_shown(source, "cargo"@, seq!["uninstall"@], "cargo uninstall "@, pkgs);
        },
    }
}

proof fn lemma_groups_shown(g: Seq<(PackageSource, Seq<PackageInfo>)>)
    requires
        forall|a: int| 0 <= a < g.len() ==> (#[trigger] g[a]).1.len() > 0,
    ensures
        forall|k: int|
            0 <= k < plan_commands(g).len() ==> (#[trigger] plan_commands(g)[k]).display == command_line(
                plan_commands(g)[k],
            ),
    decreases g.len(),
{
    if g.len() > 0 {
        let front = plan_commands(g.drop_last());
        let back = group_commands(g.last().0, g.last().1);
        lemma_groups_shown(g.drop_last());
        assert(g[g.len() - 1].1.len() > 0);
        lemma_group_shown(g.last().0, g.last().1);
        assert forall|k: int| 0 <= k < plan_commands(g).len() implies (#[trigger] plan_commands(g)[k]).display
            == command_line(plan_commands(g)[k]) by {
            if k < front.len() {
                assert(plan_commands(g)[k] == front[k]);
            } else {
                assert(plan_commands(g)[k] == back[k - front.len()]);
            }
        }
    }
}

/// A removal shows what it runs: for every command of a plan made from
/// packages, the displayed line is the program followed by its arguments,
/// separated by spaces.
pub proof fn lemma_commands_show_what_runs(pkgs: Seq<PackageInfo>, plan: RemovalPlan)
    requires
        grouped(pkgs, plan),
    ensures
        forall|k: int|
            0 <= k < plan_commands(groups_view(plan.groups@)).len() ==> (#[trigger] plan_commands(
                groups_view(plan.groups@),
            )[k]).display == command_line(plan_commands(groups_view(plan.groups@))[k]),
{
    let g = groups_view(plan.groups@);
    assert forall|a: int| 0 <= a < g.len() implies (#[trigger] g[a]).1.len() > 0 by {
        assert(plan.groups@[a].1@.len() > 0);
    }
    lemma_groups_shown(g);
}

fn owned(s: &str) -> (r: String)
    ensures
        r@ == s@,
{
    s.to_owned()
}

proof fn lemma_command_views_push(cs: Seq<RemovalCommand>, c: RemovalCommand)
    ensures
        command_views(cs.push(c)) == command_views(cs).push(command_view(c)),
{
    assert(command_views(cs.push(c)) =~= command_views(cs).push(command_view(c)));
}

/// The names of the packages, in order.
fn names_of(pkgs: &Vec<PackageInfo>) -> (r: Vec<String>)
    ensures
        strs(r@) == names(pkgs@),
{
    let mut r: Vec<String> = Vec::new();
    let mut i: usize = 0;
    while i < pkgs.len()
        invariant
            i <= pkgs@.len(),
            strs(r@) == names(pkgs@.take(i as int)),
        decreases pkgs@.len() - i,
    {
        let s = pkgs[i].name.clone();
        proof {
            lemma_strs_push(r@, s);
            assert(names(pkgs@.take(i + 1)) =~= names(pkgs@.take(i as int)).push(pkgs@[i as int].name@));
        }
        r.push(s);
        i = i + 1;
    }
    proof {
        assert(pkgs@.take(pkgs@.len() as int) =~= pkgs@);
    }
    r
}

/// `a` followed by copies of `b`.
fn concat_strings(a: Vec<String>, b: &Vec<String>) -> (r: Vec<String>)
    ensures
        strs(r@) == strs(a@) + strs(b@),
{
    let mut r = a;
    let ghost start = strs(r@);
    let mut i: usize = 0;
    while i < b.len()
        invariant
            i <= b@.len(),
            strs(r@) == start + strs(b@).take(i as int),
        decreases b@.len() - i,
    {
        let s = b[i].clone();
        proof {
            lemma_strs_push(r@, s);
            assert(start + strs(b@).take(i + 1) =~= (start + strs(b@).take(i as int)).push(b@[i as int]@));
        }
        r.push(s);
        i = i + 1;
    }
    proof {
        assert(strs(b@).take(b@.len() as int) =~= strs(b@));
    }
    r
}

fn make_batch(
    source: PackageSource,
    program: &str,
    lead: Vec<String>,
    shown: &str,
    items: &Vec<String>,
    pkg_names: Vec<String>,
) -> (c: RemovalCommand)
    ensures
        command_view(c) == batch(source, program@, strs(lead@), shown@, strs(items@), strs(pkg_names@)),
{
    let mut d: Vec<char> = Vec::new();
    push_str(&mut d, shown);
    let j = join_strings(items, " ");
    push_all(&mut d, &j);
    let args = concat_strings(lead, items);
    let c = RemovalCommand {
        source,
        display: string_of(&d),
        program: owned(program),
        args,
        packages: pkg_names,
    };
    proof {
        assert(command_view(c) =~= batch(
            source,
            program@,
            strs(lead@),
            shown@,
            strs(items@),
            strs(pkg_names@),
        ));
    }
    c
}

/// Appends one command per package.
fn push_per_package(
    out: &mut Vec<RemovalCommand>,
    source: PackageSource,
    program: &str,
    lead: &Vec<String>,
    shown: &str,
    pkgs: &Vec<PackageInfo>,
)
    ensures
        command_views(final(out)@) == command_views(old(out)@) + per_package(
            source,
            program@,
            strs(lead@),
            shown@,
            pkgs@,
        ),
{
    let ghost start = command_views(out@);
    let ghost all = per_package(source, program@, strs(lead@), shown@, pkgs@);
    let mut i: usize = 0;
    while i < pkgs.len()
        invariant
            i <= pkgs@.len(),
            all == per_package(source, program@, strs(lead@), shown@, pkgs@),
            command_views(out@) == start + all.take(i as int),
        decreases pkgs@.len() - i,
    {
        let name = &pkgs[i].name;
        let mut d: Vec<char> = Vec::new();
        push_str(&mut d, shown);
        push_str(&mut d, name.as_str());
        let mut one: Vec<String> = Vec::new();
        one.push(name.clone());
        let args = concat_strings(crate::model::package::clone_strings(lead), &one);
        let mut pk: Vec<String> = Vec::new();
        pk.push(name.clone());
        let c = RemovalCommand { source, display: string_of(&d), program: owned(program), args, packages: pk };
        proof {
            assert(strs(one@) =~= seq![name@]);
            assert(strs(c.packages@) =~= seq![name@]);
            assert(strs(c.args@) =~= strs(lead@).push(name@));
            assert(command_view(c) =~= all[i as int]);
            lemma_command_views_push(out@, c);
            assert(start + all.take(i + 1) =~= (start + all.take(i as int)).push(all[i as int]));
        }
        out.push(c);
        i = i + 1;
    }
    proof {
        assert(all.take(pkgs@.len() as int) =~= all);
    }
}

/// Whether the first component of the pieces is `dir`.
fn first_component_is(ps: &Vec<Vec<char>>, dir: &str) -> (r: bool)
    ensures
        r == (first_component(pieces(ps@)) == Some(dir@)),
{
    let dot = chars_of(".");
    let want = chars_of(dir);
    let mut i: usize = 0;
    proof {
        assert(pieces(ps@).skip(0) =~= pieces(ps@));
    }
    while i < ps.len()
        invariant
            i <= ps@.len(),
            dot@ == "."@,
            want@ == dir@,
            first_component(pieces(ps@)) == first_component(pieces(ps@).skip(i as int)),
        decreases ps@.len() - i,
    {
        let p = &ps[i];
        proof {
            assert(pieces(ps@).skip(i as int)[0] == p@);
            assert(pieces(ps@).skip(i as int).drop_first() =~= pieces(ps@).skip(i + 1));
        }
        if p.len() == 0 || crate::text::chars_eq(p, &dot) {
            i = i + 1;
        } else {
            return crate::text::chars_eq(p, &want);
        }
    }
    proof {
        assert(pieces(ps@).skip(i as int) =~= Seq::<Seq<char>>::empty());
    }
    false
}

/// `Path::new(path).starts_with("/" + dir)`.
fn is_under(path: &String, dir: &str) -> (r: bool)
    ensures
        r == path_under(path@, dir@),
{
    let v = chars_of(path.as_str());
    if v.len() == 0 || v[0] != '/' {
        return false;
    }
    let rest = crate::text::copy_range(&v, 1, v.len());
    proof {
        assert(rest@ =~= v@.drop_first());
    }
    let ps = split_char(&rest, '/');
    first_component_is(&ps, dir)
}

fn path_needs_root(path: &String) -> (r: bool)
    ensures
        r == needs_root(path@),
{
    is_under(path, "opt") || is_under(path, "usr") || is_under(path, "bin") || is_under(path, "sbin")
}

/// Appends the file removal commands of a group.
fn push_file_commands(out: &mut Vec<RemovalCommand>, source: PackageSource, pkgs: &Vec<PackageInfo>)
    ensures
        command_views(final(out)@) == command_views(old(out)@) + file_commands(source, pkgs@),
{
    let mut root_paths: Vec<String> = Vec::new();
    let mut root_names: Vec<String> = Vec::new();
    let mut user_paths: Vec<String> = Vec::new();
    let mut user_names: Vec<String> = Vec::new();
    let mut i: usize = 0;
    while i < pkgs.len()
        invariant
            i <= pkgs@.len(),
            strs(root_paths@) == paths(root_files(pkgs@.take(i as int))),
            strs(root_names@) == names(root_files(pkgs@.take(i as int))),
            strs(user_paths@) == paths(user_files(pkgs@.take(i as int))),
            strs(user_names@) == names(user_files(pkgs@.take(i as int))),
        decreases pkgs@.len() - i,
    {
        let p = &pkgs[i];
        let ghost pre = pkgs@.take(i as int);
        proof {
            reveal_with_fuel(Seq::filter, 1);
            assert(pkgs@.take(i + 1).drop_last() =~= pre);
            assert(pkgs@.take(i + 1).last() == *p);
        }
        match &p.install_path {
            Some(path) => {
                let a = path.clone();
                let b = p.name.clone();
                if path_needs_root(path) {
                    proof {
                        lemma_strs_push(root_paths@, a);
                        lemma_strs_push(root_names@, b);
                        assert(root_files(pkgs@.take(i + 1)) == root_files(pre).push(*p));
                        assert(paths(root_files(pre).push(*p)) =~= paths(root_files(pre)).push(path@));
                        assert(names(root_files(pre).push(*p)) =~= names(root_files(pre)).push(p.name@));
                        assert(user_files(pkgs@.take(i + 1)) == user_files(pre));
                    }
                    root_paths.push(a);
                    root_names.push(b);
                } else {
                    proof {
                        lemma_strs_push(user_paths@, a);
                        lemma_strs_push(user_names@, b);
                        assert(user_files(pkgs@.take(i + 1)) == user_files(pre).push(*p));
                        assert(paths(user_files(pre).push(*p)) =~= paths(user_files(pre)).push(path@));
                        assert(names(user_files(pre).push(*p)) =~= names(user_files(pre)).push(p.name@));
                        assert(root_files(pkgs@.take(i + 1)) == root_files(pre));
                    }
                    user_paths.push(a);
                    user_names.push(b);
                }
            },
            None => {
                proof {
                    assert(root_files(pkgs@.take(i + 1)) == root_files(pre));
                    assert(user_files(pkgs@.take(i + 1)) == user_files(pre));
                }
            },
        }
        i = i + 1;
    }
    proof {
        assert(pkgs@.take(pkgs@.len() as int) =~= pkgs@);
    }
    let ghost start = command_views(out@);
    let ghost root = root_files(pkgs@);
    let ghost user = user_files(pkgs@);
    if root_paths.len() > 0 {
        let mut lead: Vec<String> = Vec::new();
        lead.push(owned("rm"));
        lead.push(owned("-rf"));
        proof {
            assert(strs(lead@) =~= seq!["rm"@, "-rf"@]);
        }
        let c = make_batch(source, "pkexec", lead, "pkexec rm -rf ", &root_paths, root_names);
        proof {
            lemma_command_views_push(out@, c);
        }
        out.push(c);
    }
    let ghost mid = command_views(out@);
    proof {
        assert(mid == start + (if root.len() > 0 {
            seq![batch(source, "pkexec"@, seq!["rm"@, "-rf"@], "pkexec rm -rf "@, paths(root), names(root))]
        } else {
            seq![]
        })) by {
            if root.len() > 0 {
                assert(strs(root_paths@).len() == root.len());
            } else {
                assert(strs(root_paths@).len() == 0);
            }
        }
    }
    if user_paths.len() > 0 {
        let mut lead: Vec<String> = Vec::new();
        lead.push(owned("-rf"));
        proof {
            assert(strs(lead@) =~= seq!["-rf"@]);
        }
        let c = make_batch(source, "rm", lead, "rm -rf ", &user_paths, user_names);
        proof {
            lemma_command_views_push(out@, c);
        }
        out.push(c);
    }
    proof {
        if user.len() > 0 {
            assert(strs(user_paths@).len() == user.len());
        } else {
            assert(strs(user_paths@).len() == 0);
        }
        assert(command_views(out@) =~= command_views(old(out)@) + file_commands(source, pkgs@));
    }
}

fn lits2(a: &str, b: &str) -> (r: Vec<String>)
    ensures
        strs(r@) == seq![a@, b@],
{
    let mut r: Vec<String> = Vec::new();
    r.push(owned(a));
    r.push(owned(b));
    proof {
        assert(strs(r@) =~= seq![a@, b@]);
    }
    r
}

/// Appends the commands of one group.
fn push_group_commands(out: &mut Vec<RemovalCommand>, source: PackageSource, pkgs: &Vec<PackageInfo>)
    ensures
        command_views(final(out)@) == command_views(old(out)@) + group_commands(source, pkgs@),
{
    match source {
        PackageSource::Pacman | PackageSource::Aur => {
            let mut lead: Vec<String> = Vec::new();
            lead.push(owned("pacman"));
            lead.push(owned("-Rns"));
            lead.push(owned("--noconfirm"));
            proof {
                assert(strs(lead@) =~= seq!["pacman"@, "-Rns"@, "--noconfirm"@]);
            }
            let ns = names_of(pkgs);
            let c = make_batch(source, "pkexec", lead, "pkexec pacman -Rns --noconfirm ", &ns, names_of(pkgs));
            proof {
                lemma_command_views_push(out@, c);
            }
            out.push(c);
        },
        PackageSource::Flatpak => {
            let lead = lits2("uninstall", "-y");
            push_per_package(out, source, "flatpak", &lead, "flatpak uninstall -y ", pkgs);
        },
        PackageSource::AppImage | PackageSource::Wine | PackageSource::Desktop => {
            push_file_commands(out, source, pkgs);
        },
        PackageSource::Snap => {
            let mut lead: Vec<String> = Vec::new();
            lead.push(owned("remove"));
            proof {
                assert(strs(lead@) =~= seq!["remove"@]);
            }
            push_per_package(out, source, "snap", &lead, "snap remove ", pkgs);
        },
        PackageSource::Pip => {
            let lead = lits2("uninstall", "-y");
            let ns = names_of(pkgs);
            let c = make_batch(source, "pip", lead, "pip uninstall -y ", &ns, names_of(pkgs));
            proof {
                lemma_command_views_push(out@, c);
            }
            out.push(c);
        },
        PackageSource::Npm => {
            let lead = lits2("uninstall", "-g");
            let ns = names_of(pkgs);
            let c = make_batch(source, "npm", lead, "npm uninstall -g ", &ns, names_of(pkgs));
            proof {
                lemma_command_views_push(out@, c);
            }
            out.push(c);
        },
        PackageSource::Cargo => {
            let mut lead: Vec<String> = Vec::new();
            lead.push(owned("uninstall"));
            proof {
                assert(strs(lead@) =~= seq!["uninstall"@]);
            }
            push_per_package(out, source, "cargo", &lead, "cargo uninstall ", pkgs);
        },
    }
}

impl RemovalPlan {
    /// The removal commands, group after group.
    pub fn commands(&self) -> (r: Vec<RemovalCommand>)
        ensures
            command_views(r@) == plan_commands(groups_view(self.groups@)),
    {
        let ghost g = groups_view(self.groups@);
        let mut out: Vec<RemovalCommand> = Vec::new();
        let mut i: usize = 0;
        proof {
            assert(command_views(out@) =~= plan_commands(g.take(0)));
        }
        while i < self.groups.len()
            invariant
                i <= self.groups@.len(),
                g == groups_view(self.groups@),
                command_views(out@) == plan_commands(g.take(i as int)),
            decreases self.groups@.len() - i,
        {
            proof {
                assert(g.take(i + 1).drop_last() =~= g.take(i as int));
                assert(g.take(i + 1).last() == (self.groups@[i as int].0, self.groups@[i as int].1@));
            }
            push_group_commands(&mut out, self.groups[i].0, &self.groups[i].1);
            i = i + 1;
        }
        proof {
            assert(g.take(g.len() as int) =~= g);
        }
        out
    }
}

// ---------------------------------------------------------------------------
// Summary text
// ---------------------------------------------------------------------------

/// `"[<label>] <n> package(s):"`.
pub open spec fn group_header(source: PackageSource, n: nat) -> Seq<char> {
    "["@ + label_text(source) + "] "@ + dec_text(n) + " package(s):"@
}

/// `"  - <name> <size>"`.
pub open spec fn package_line(p: PackageInfo) -> Seq<char> {
    "  - "@ + p.name@ + " "@ + byte_size_text(p.installed_size)
}

/// The lines of all groups: a header, then one line per package.
pub open spec fn group_lines(g: Seq<(PackageSource, Seq<PackageInfo>)>) -> Seq<Seq<char>>
    decreases g.len(),
{
    if g.len() == 0 {
        seq![]
    } else {
        group_lines(g.drop_last()) + seq![group_header(g.last().0, g.last().1.len())]
            + g.last().1.map_values(|p: PackageInfo| package_line(p))
    }
}

/// `"\nTotal: <n> packages, <size> freed"`.
pub open spec fn total_line(n: nat, size: u64) -> Seq<char> {
    "\nTotal: "@ + dec_text(n) + " packages, "@ + byte_size_text(size) + " freed"@
}

impl RemovalPlan {
    /// The human-readable summary of what will be removed.
    pub fn summary_lines(&self) -> (r: Vec<String>)
        requires
            group_count(groups_view(self.groups@)) <= usize::MAX,
        ensures
            strs(r@) == group_lines(groups_view(self.groups@)).push(
                total_line(group_count(groups_view(self.groups@)) as nat, self.total_size),
            ),
    {
        let ghost g = groups_view(self.groups@);
        let mut lines: Vec<String> = Vec::new();
        let mut i: usize = 0;
        proof {
            assert(strs(lines@) =~= group_lines(g.take(0)));
        }
        while i < self.groups.len()
            invariant
                i <= self.groups@.len(),
                g == groups_view(self.groups@),
                strs(lines@) == group_lines(g.take(i as int)),
            decreases self.groups@.len() - i,
        {
            let source = self.groups[i].0;
            let pkgs = &self.groups[i].1;
            proof {
                assert(g.take(i + 1).drop_last() =~= g.take(i as int));
                assert(g.take(i + 1).last() == (source, pkgs@));
            }
            let mut h: Vec<char> = Vec::new();
            push_str(&mut h, "[");
            push_str(&mut h, source.label());
            push_str(&mut h, "] ");
            push_decimal(&mut h, pkgs.len() as u64);
            push_str(&mut h, " package(s):");
            let hs = string_of(&h);
            proof {
                assert(hs@ =~= group_header(source, pkgs@.len()));
                lemma_strs_push(lines@, hs);
            }
            lines.push(hs);
            let ghost base = strs(lines@);
            let mut k: usize = 0;
            while k < pkgs.len()
                invariant
                    k <= pkgs@.len(),
                    strs(lines@) == base + pkgs@.take(k as int).map_values(
                        |p: PackageInfo| package_line(p),
                    ),
                decreases pkgs@.len() - k,
            {
                let p = &pkgs[k];
                let mut l: Vec<char> = Vec::new();
                push_str(&mut l, "  - ");
                push_str(&mut l, p.name.as_str());
                push_str(&mut l, " ");
                let size = format_size(p.installed_size);
                push_str(&mut l, size.as_str());
                let ls = string_of(&l);
                proof {
                    assert(ls@ =~= package_line(*p));
                    lemma_strs_push(lines@, ls);
                    assert(pkgs@.take(k + 1).map_values(|p: PackageInfo| package_line(p)) =~= pkgs@.take(
                        k as int,
                    ).map_values(|p: PackageInfo| package_line(p)).push(package_line(*p)));
                }
                lines.push(ls);
                k = k + 1;
            }
            proof {
                assert(pkgs@.take(pkgs@.len() as int) =~= pkgs@);
                assert(group_lines(g.take(i + 1)) =~= group_lines(g.take(i as int)) + seq![
                    group_header(source, pkgs@.len()),
                ] + pkgs@.map_values(|p: PackageInfo| package_line(p)));
            }
            i = i + 1;
        }
        proof {
            assert(g.take(g.len() as int) =~= g);
        }
        let count = self.total_packages();
        let mut t: Vec<char> = Vec::new();
        push_str(&mut t, "\nTotal: ");
        push_decimal(&mut t, count as u64);
        push_str(&mut t, " packages, ");
        let size = format_size(self.total_size);
        push_str(&mut t, size.as_str());
        push_str(&mut t, " freed");
        let ts = string_of(&t);
        proof {
            assert(ts@ =~= total_line(count as nat, self.total_size));
            lemma_strs_push(lines@, ts);
        }
        lines.push(ts);
        lines
    }
}

} // verus!
