//! Cleanup tasks: caches and leftovers that can be removed, how much space
//! each takes, and the shell command that cleans it.
//!
//! Sizes are measured by the caller (walking directories, running
//! `pacman`, `flatpak`, `journalctl` or `docker`); the functions here
//! interpret what those report and decide which tasks to offer.

use vstd::prelude::*;

use crate::paths::{join_path, joined};
use crate::text::{
    before_char, before_first, chars_of, copy_range, ends_with, eq_str, has_suffix, join, join_strings,
    lines, lines_of, pieces, push_decimal, push_str, dec_text, split_char, split_on, split_whitespace,
    split_ws, starts_with, has_prefix, string_of, strip_suffixes, strs, trim, trim_chars, trim_end_matches,
    lemma_strs_push,
};

verus! {

/// A cleanup task with its current disk usage and its cleanup command.
pub struct MaintenanceItem {
    pub id: String,
    pub category: &'static str,
    pub label: String,
    pub size: u64,
    pub command: String,
    pub checked: bool,
}

/// A task as plain values.
#[verifier::ext_equal]
pub struct ItemView {
    pub id: Seq<char>,
    pub category: Seq<char>,
    pub label: Seq<char>,
    pub size: u64,
    pub command: Seq<char>,
    pub checked: bool,
}

pub open spec fn item_view(i: MaintenanceItem) -> ItemView {
    ItemView {
        id: i.id@,
        category: i.category@,
        label: i.label@,
        size: i.size,
        command: i.command@,
        checked: i.checked,
    }
}

pub open spec fn item_views(v: Seq<MaintenanceItem>) -> Seq<ItemView> {
    v.map_values(|i: MaintenanceItem| item_view(i))
}

/// An unchecked task.
pub open spec fn task(id: Seq<char>, category: Seq<char>, label: Seq<char>, size: u64, command: Seq<char>) -> ItemView {
    ItemView { id, category, label, size, command, checked: false }
}

/// The task when `offered`, nothing otherwise.
pub open spec fn offer(offered: bool, t: ItemView) -> Seq<ItemView> {
    if offered {
        seq![t]
    } else {
        seq![]
    }
}

/// Whether a measured directory holds something.
pub open spec fn nonempty(size: Option<u64>) -> bool {
    size.is_some() && size.unwrap() > 0
}

pub open spec fn size_or_zero(size: Option<u64>) -> int {
    match size {
        Some(s) => s as int,
        None => 0,
    }
}

/// What was measured on the system, in bytes.  A directory that does not
/// exist is `None`.
pub struct DiskUsage {
    /// `/var/cache/pacman/pkg`
    pub pacman_cache: Option<u64>,
    /// `~/.cache/yay`
    pub yay_cache: Option<u64>,
    /// `/var/cache/debtap`
    pub debtap_cache: Option<u64>,
    /// Installed size of the orphaned packages.
    pub orphans: u64,
    /// Size of the unused Flatpak runtimes.
    pub flatpak_unused: u64,
    /// `~/.cargo/registry`
    pub cargo_registry: Option<u64>,
    /// `~/.cargo/git`
    pub cargo_git: Option<u64>,
    /// Rust `target/` directories under `~/Programs`, with their sizes.
    pub rust_targets: Vec<(String, u64)>,
    /// `~/.npm/_cacache`
    pub npm_cache: Option<u64>,
    /// `~/.cache/pip`
    pub pip_cache: Option<u64>,
    /// Whether the `go` program is installed.
    pub go_installed: bool,
    /// `~/.cache/go-build`
    pub go_cache: Option<u64>,
    /// The `Cache` directories under `~/.config`, together.
    pub electron_caches: u64,
    /// `~/.cache/tauri`
    pub tauri_cache: Option<u64>,
    /// `~/.cache/temp-tauri`
    pub temp_tauri: Option<u64>,
    /// `/var/lib/systemd/coredump`
    pub coredumps: Option<u64>,
    /// Disk usage of the systemd journal.
    pub journal: u64,
    /// `~/.cache/thumbnails`
    pub thumbnails: Option<u64>,
    /// `~/.local/share/Trash`
    pub trash: Option<u64>,
    /// Whether the `docker` program is installed.
    pub docker_installed: bool,
    /// Space docker reports as reclaimable.
    pub docker_reclaimable: u64,
}

/// Space taken by cached packages of uninstalled programs.  Measuring it
/// costs too much, so it is reported as nothing; the pacman cache task
/// covers that space.
pub fn get_paccache_uninstalled_size() -> (r: u64)
    ensures
        r == 0,
{
    0
}

/// The total size of the Rust target directories.
pub open spec fn targets_size(ts: Seq<(String, u64)>) -> int
    decreases ts.len(),
{
    if ts.len() == 0 {
        0
    } else {
        targets_size(ts.drop_last()) + ts.last().1
    }
}

/// `rm -rf '<dir>'` for each target directory.
pub open spec fn target_commands(ts: Seq<(String, u64)>) -> Seq<Seq<char>> {
    ts.map_values(|t: (String, u64)| "rm -rf '"@ + t.0@ + "'"@)
}

/// Whether the sums the task list adds up fit in 64 bits.
pub open spec fn sums_fit(u: DiskUsage) -> bool {
    &&& size_or_zero(u.cargo_registry) + size_or_zero(u.cargo_git) <= u64::MAX
    &&& size_or_zero(u.tauri_cache) + size_or_zero(u.temp_tauri) <= u64::MAX
    &&& targets_size(u.rust_targets@) <= u64::MAX
}

pub open spec fn package_cache_tasks(home: Seq<char>, u: DiskUsage) -> Seq<ItemView> {
    let c = "Package manager caches"@;
    offer(
        nonempty(u.pacman_cache),
        task(
            "pacman-cache"@,
            c,
            "Pacman cache (keep last 2 versions)"@,
            size_or_zero(u.pacman_cache) as u64,
            "pkexec paccache -rk2"@,
        ),
    ) + offer(false, task("pacman-uninstalled"@, c, "Uninstalled package cache"@, 0, "pkexec paccache -ruk0"@))
        + offer(
        nonempty(u.yay_cache),
        task(
            "aur-cache"@,
            c,
            "AUR build cache (~/.cache/yay/)"@,
            size_or_zero(u.yay_cache) as u64,
            "rm -rf '"@ + joined(home, ".cache/yay"@) + "'/*"@,
        ),
    ) + offer(
        nonempty(u.debtap_cache),
        task(
            "debtap-cache"@,
            c,
            "Debtap cache (/var/cache/debtap/)"@,
            size_or_zero(u.debtap_cache) as u64,
            "pkexec rm -rf /var/cache/debtap/*"@,
        ),
    ) + offer(
        u.orphans > 0,
        task(
            "orphans"@,
            c,
            "Orphaned packages"@,
            u.orphans,
            "pkexec pacman -Rns --noconfirm $(pacman -Qdtq)"@,
        ),
    ) + offer(
        u.flatpak_unused > 0,
        task("flatpak-unused"@, c, "Flatpak unused runtimes"@, u.flatpak_unused, "flatpak uninstall --unused -y"@),
    )
}

pub open spec fn dev_tool_tasks(home: Seq<char>, u: DiskUsage) -> Seq<ItemView> {
    let c = "Dev tool caches"@;
    let cargo = size_or_zero(u.cargo_registry) + size_or_zero(u.cargo_git);
    let cargo_dir = joined(home, ".cargo"@);
    let go_dir = joined(home, ".cache/go-build"@);
    offer(
        cargo > 0,
        task(
            "cargo-cache"@,
            c,
            "Cargo registry + git cache"@,
            cargo as u64,
            "rm -rf '"@ + cargo_dir + "/registry' '"@ + cargo_dir + "/git'"@,
        ),
    ) + offer(
        targets_size(u.rust_targets@) > 0,
        task(
            "rust-targets"@,
            c,
            "Rust target/ dirs ("@ + dec_text(u.rust_targets@.len()) + " projects)"@,
            targets_size(u.rust_targets@) as u64,
            join(target_commands(u.rust_targets@), " && "@),
        ),
    ) + offer(
        nonempty(u.npm_cache),
        task("npm-cache"@, c, "npm cache"@, size_or_zero(u.npm_cache) as u64, "npm cache clean --force"@),
    ) + offer(
        nonempty(u.pip_cache),
        task("pip-cache"@, c, "pip cache"@, size_or_zero(u.pip_cache) as u64, "pip cache purge"@),
    ) + offer(
        nonempty(u.go_cache),
        task(
            "go-cache"@,
            c,
            "Go build cache"@,
            size_or_zero(u.go_cache) as u64,
            if u.go_installed {
                "go clean -cache"@
            } else {
                "rm -rf '"@ + go_dir + "'/*"@
            },
        ),
    )
}

pub open spec fn app_cache_tasks(home: Seq<char>, u: DiskUsage) -> Seq<ItemView> {
    let c = "App/Electron caches"@;
    let tauri = size_or_zero(u.tauri_cache) + size_or_zero(u.temp_tauri);
    offer(
        u.electron_caches > 0,
        task(
            "electron-cache"@,
            c,
            "Electron app caches (Discord, Slack, etc.)"@,
            u.electron_caches,
            "find '"@ + home + "/.config' -maxdepth 2 -name Cache -type d -exec rm -rf '{}' +"@,
        ),
    ) + offer(
        tauri > 0,
        task(
            "tauri-cache"@,
            c,
            "Tauri cache"@,
            tauri as u64,
            "rm -rf '"@ + joined(home, ".cache/tauri"@) + "' '"@ + joined(home, ".cache/temp-tauri"@) + "'"@,
        ),
    )
}

pub open spec fn system_tasks(home: Seq<char>, u: DiskUsage) -> Seq<ItemView> {
    let c = "System cruft"@;
    offer(
        nonempty(u.coredumps),
        task(
            "coredumps"@,
            c,
            "Coredumps"@,
            size_or_zero(u.coredumps) as u64,
            "pkexec rm -rf /var/lib/systemd/coredump/*"@,
        ),
    ) + offer(
        u.journal > 0,
        task(
            "journal"@,
            c,
            "Systemd journal (keep 1 week)"@,
            u.journal,
            "pkexec journalctl --vacuum-time=1week"@,
        ),
    ) + offer(
        nonempty(u.thumbnails),
        task(
            "thumbnails"@,
            c,
            "Thumbnail cache"@,
            size_or_zero(u.thumbnails) as u64,
            "rm -rf '"@ + joined(home, ".cache/thumbnails"@) + "'/*"@,
        ),
    ) + offer(
        nonempty(u.trash),
        task(
            "trash"@,
            c,
            "Trash"@,
            size_or_zero(u.trash) as u64,
            "pkexec rm -rf '"@ + joined(home, ".local/share/Trash"@) + "'/*"@,
        ),
    ) + offer(
        u.docker_installed && u.docker_reclaimable > 0,
        task(
            "docker-images"@,
            c,
            "Docker unused images"@,
            u.docker_reclaimable,
            "docker image prune -a -f"@,
        ),
    )
}

/// All tasks, in the order they are shown.
pub open spec fn maintenance_tasks(home: Seq<char>, u: DiskUsage) -> Seq<ItemView> {
    package_cache_tasks(home, u) + dev_tool_tasks(home, u) + app_cache_tasks(home, u) + system_tasks(home, u)
}

fn cat5(a: &str, b: &str, c: &str, d: &str, e: &str) -> (r: String)
    ensures
        r@ == a@ + b@ + c@ + d@ + e@,
{
    let mut v: Vec<char> = Vec::new();
    push_str(&mut v, a);
    push_str(&mut v, b);
    push_str(&mut v, c);
    push_str(&mut v, d);
    push_str(&mut v, e);
    string_of(&v)
}

fn cat3(a: &str, b: &str, c: &str) -> (r: String)
    ensures
        r@ == a@ + b@ + c@,
{
    let mut v: Vec<char> = Vec::new();
    push_str(&mut v, a);
    push_str(&mut v, b);
    push_str(&mut v, c);
    string_of(&v)
}

fn add_task(
    items: &mut Vec<MaintenanceItem>,
    offered: bool,
    id: &str,
    category: &'static str,
    label: String,
    size: u64,
    command: String,
)
    ensures
        item_views(final(items)@) == item_views(old(items)@) + offer(
            offered,
            task(id@, category@, label@, size, command@),
        ),
{
    let ghost before = items@;
    if offered {
        items.push(
            MaintenanceItem { id: id.to_owned(), category, label, size, command, checked: false },
        );
        proof {
            assert(item_views(items@) =~= item_views(before).push(task(id@, category@, label@, size, command@)));
        }
    } else {
        proof {
            assert(item_views(items@) =~= item_views(before) + seq![]);
        }
    }
}

fn is_nonempty(size: Option<u64>) -> (r: bool)
    ensures
        r == nonempty(size),
{
    match size {
        Some(s) => s > 0,
        None => false,
    }
}

fn or_zero(size: Option<u64>) -> (r: u64)
    ensures
        r == size_or_zero(size),
{
    match size {
        Some(s) => s,
        None => 0,
    }
}

fn package_cache_items(items: &mut Vec<MaintenanceItem>, home: &str, u: &DiskUsage)
    ensures
        item_views(final(items)@) == item_views(old(items)@) + package_cache_tasks(home@, *u),
{
    let ghost start = item_views(items@);
    let c: &'static str = "Package manager caches";
    add_task(
        items,
        is_nonempty(u.pacman_cache),
        "pacman-cache",
        c,
        "Pacman cache (keep last 2 versions)".to_owned(),
        or_zero(u.pacman_cache),
        "pkexec paccache -rk2".to_owned(),
    );
    let uninstalled = get_paccache_uninstalled_size();
    add_task(
        items,
        uninstalled > 0,
        "pacman-uninstalled",
        c,
        "Uninstalled package cache".to_owned(),
        uninstalled,
        "pkexec paccache -ruk0".to_owned(),
    );
    let yay = join_path(home, ".cache/yay");
    add_task(
        items,
        is_nonempty(u.yay_cache),
        "aur-cache",
        c,
        "AUR build cache (~/.cache/yay/)".to_owned(),
        or_zero(u.yay_cache),
        cat3("rm -rf '", yay.as_str(), "'/*"),
    );
    add_task(
        items,
        is_nonempty(u.debtap_cache),
        "debtap-cache",
        c,
        "Debtap cache (/var/cache/debtap/)".to_owned(),
        or_zero(u.debtap_cache),
        "pkexec rm -rf /var/cache/debtap/*".to_owned(),
    );
    add_task(
        items,
        u.orphans > 0,
        "orphans",
        c,
        "Orphaned packages".to_owned(),
        u.orphans,
        "pkexec pacman -Rns --noconfirm $(pacman -Qdtq)".to_owned(),
    );
    add_task(
        items,
        u.flatpak_unused > 0,
        "flatpak-unused",
        c,
        "Flatpak unused runtimes".to_owned(),
        u.flatpak_unused,
        "flatpak uninstall --unused -y".to_owned(),
    );
    proof {
        assert(item_views(items@) =~= start + package_cache_tasks(home@, *u));
    }
}

fn rust_target_command(ts: &Vec<(String, u64)>) -> (r: String)
    ensures
        r@ == join(target_commands(ts@), " && "@),
{
    let mut cmds: Vec<String> = Vec::new();
    let mut i: usize = 0;
    while i < ts.len()
        invariant
            i <= ts@.len(),
            strs(cmds@) == target_commands(ts@.take(i as int)),
        decreases ts@.len() - i,
    {
        let c = cat3("rm -rf '", ts[i].0.as_str(), "'");
        proof {
            lemma_strs_push(cmds@, c);
            assert(target_commands(ts@.take(i + 1)) =~= target_commands(ts@.take(i as int)).push(c@));
        }
        cmds.push(c);
        i = i + 1;
    }
    proof {
        assert(ts@.take(ts@.len() as int) =~= ts@);
    }
    string_of(&join_strings(&cmds, " && "))
}

fn rust_targets_size(ts: &Vec<(String, u64)>) -> (r: u64)
    requires
        targets_size(ts@) <= u64::MAX,
    ensures
        r == targets_size(ts@),
{
    let mut total: u64 = 0;
    let mut i: usize = 0;
    while i < ts.len()
        invariant
            i <= ts@.len(),
            total == targets_size(ts@.take(i as int)),
            targets_size(ts@) <= u64::MAX,
        decreases ts@.len() - i,
    {
        proof {
            assert(ts@.take(i + 1).drop_last() =~= ts@.take(i as int));
            lemma_targets_size_prefix(ts@, i + 1);
        }
        total = total + ts[i].1;
        i = i + 1;
    }
    proof {
        assert(ts@.take(ts@.len() as int) =~= ts@);
    }
    total
}

proof fn lemma_targets_size_prefix(ts: Seq<(String, u64)>, k: int)
    requires
        0 <= k <= ts.len(),
    ensures
        targets_size(ts.take(k)) <= targets_size(ts),
    decreases ts.len() - k,
{
    if k < ts.len() {
        lemma_targets_size_prefix(ts, k + 1);
        assert(ts.take(k + 1).drop_last() =~= ts.take(k));
    } else {
        assert(ts.take(k) =~= ts);
    }
}

#[verifier::rlimit(40)]
fn dev_tool_items(items: &mut Vec<MaintenanceItem>, home: &str, u: &DiskUsage)
    requires
        sums_fit(*u),
    ensures
        item_views(final(items)@) == item_views(old(items)@) + dev_tool_tasks(home@, *u),
{
    let ghost start = item_views(items@);
    let c: &'static str = "Dev tool caches";
    let cargo = or_zero(u.cargo_registry) + or_zero(u.cargo_git);
    let cargo_dir = join_path(home, ".cargo");
    add_task(
        items,
        cargo > 0,
        "cargo-cache",
        c,
        "Cargo registry + git cache".to_owned(),
        cargo,
        cat5("rm -rf '", cargo_dir.as_str(), "/registry' '", cargo_dir.as_str(), "/git'"),
    );
    let total = rust_targets_size(&u.rust_targets);
    let mut label: Vec<char> = Vec::new();
    push_str(&mut label, "Rust target/ dirs (");
    push_decimal(&mut label, u.rust_targets.len() as u64);
    push_str(&mut label, " projects)");
    add_task(
        items,
        total > 0,
        "rust-targets",
        c,
        string_of(&label),
        total,
        rust_target_command(&u.rust_targets),
    );
    add_task(
        items,
        is_nonempty(u.npm_cache),
        "npm-cache",
        c,
        "npm cache".to_owned(),
        or_zero(u.npm_cache),
        "npm cache clean --force".to_owned(),
    );
    add_task(
        items,
        is_nonempty(u.pip_cache),
        "pip-cache",
        c,
        "pip cache".to_owned(),
        or_zero(u.pip_cache),
        "pip cache purge".to_owned(),
    );
    let go_dir = join_path(home, ".cache/go-build");
    let go_cmd = if u.go_installed {
        "go clean -cache".to_owned()
    } else {
        cat3("rm -rf '", go_dir.as_str(), "'/*")
    };
    add_task(
        items,
        is_nonempty(u.go_cache),
        "go-cache",
        c,
        "Go build cache".to_owned(),
        or_zero(u.go_cache),
        go_cmd,
    );
    proof {
        assert(item_views(items@) =~= start + dev_tool_tasks(home@, *u));
    }
}

fn app_cache_items(items: &mut Vec<MaintenanceItem>, home: &str, u: &DiskUsage)
    requires
        sums_fit(*u),
    ensures
        item_views(final(items)@) == item_views(old(items)@) + app_cache_tasks(home@, *u),
{
    let ghost start = item_views(items@);
    let c: &'static str = "App/Electron caches";
    add_task(
        items,
        u.electron_caches > 0,
        "electron-cache",
        c,
        "Electron app caches (Discord, Slack, etc.)".to_owned(),
        u.electron_caches,
        cat3("find '", home, "/.config' -maxdepth 2 -name Cache -type d -exec rm -rf '{}' +"),
    );
    let tauri = or_zero(u.tauri_cache) + or_zero(u.temp_tauri);
    let a = join_path(home, ".cache/tauri");
    let b = join_path(home, ".cache/temp-tauri");
    add_task(
        items,
        tauri > 0,
        "tauri-cache",
        c,
        "Tauri cache".to_owned(),
        tauri,
        cat5("rm -rf '", a.as_str(), "' '", b.as_str(), "'"),
    );
    proof {
        assert(item_views(items@) =~= start + app_cache_tasks(home@, *u));
    }
}

fn system_items(items: &mut Vec<MaintenanceItem>, home: &str, u: &DiskUsage)
    ensures
        item_views(final(items)@) == item_views(old(items)@) + system_tasks(home@, *u),
{
    let ghost start = item_views(items@);
    let c: &'static str = "System cruft";
    add_task(
        items,
        is_nonempty(u.coredumps),
        "coredumps",
        c,
        "Coredumps".to_owned(),
        or_zero(u.coredumps),
        "pkexec rm -rf /var/lib/systemd/coredump/*".to_owned(),
    );
    add_task(
        items,
        u.journal > 0,
        "journal",
        c,
        "Systemd journal (keep 1 week)".to_owned(),
        u.journal,
        "pkexec journalctl --vacuum-time=1week".to_owned(),
    );
    let thumbs = join_path(home, ".cache/thumbnails");
    add_task(
        items,
        is_nonempty(u.thumbnails),
        "thumbnails",
        c,
        "Thumbnail cache".to_owned(),
        or_zero(u.thumbnails),
        cat3("rm -rf '", thumbs.as_str(), "'/*"),
    );
    let trash = join_path(home, ".local/share/Trash");
    add_task(
        items,
        is_nonempty(u.trash),
        "trash",
        c,
        "Trash".to_owned(),
        or_zero(u.trash),
        cat3("pkexec rm -rf '", trash.as_str(), "'/*"),
    );
    add_task(
        items,
        u.docker_installed && u.docker_reclaimable > 0,
        "docker-images",
        c,
        "Docker unused images".to_owned(),
        u.docker_reclaimable,
        "docker image prune -a -f".to_owned(),
    );
    proof {
        assert(item_views(items@) =~= start + system_tasks(home@, *u));
    }
}

/// The cleanup tasks worth offering for the measured usage, each with its
/// size and command, none checked.  `home` is the home directory.
pub fn maintenance_items(home: &str, usage: &DiskUsage) -> (r: Vec<MaintenanceItem>)
    requires
        sums_fit(*usage),
    ensures
        item_views(r@) == maintenance_tasks(home@, *usage),
{
    let mut items: Vec<MaintenanceItem> = Vec::new();
    package_cache_items(&mut items, home, usage);
    dev_tool_items(&mut items, home, usage);
    app_cache_items(&mut items, home, usage);
    system_items(&mut items, home, usage);
    proof {
        assert(item_views(Seq::<MaintenanceItem>::empty()) =~= Seq::<ItemView>::empty());
        assert(maintenance_tasks(home@, *usage) =~= Seq::<ItemView>::empty() + package_cache_tasks(home@, *usage)
            + dev_tool_tasks(home@, *usage) + app_cache_tasks(home@, *usage) + system_tasks(home@, *usage));
    }
    items
}

// ---------------------------------------------------------------------------
// Reading what the measuring programs print
// ---------------------------------------------------------------------------

/// The byte multiplier of a unit in `pacman -Qi` sizes, or 0 for a unit not
/// accepted there.
pub open spec fn qi_unit(u: Seq<char>) -> u64 {
    if u == "B"@ {
        1
    } else if u == "KiB"@ {
        1024
    } else if u == "MiB"@ {
        1048576
    } else if u == "GiB"@ {
        1073741824
    } else {
        0
    }
}

fn qi_unit_of(u: &Vec<char>) -> (r: u64)
    ensures
        r == qi_unit(u@),
{
    if eq_str(u, "B") {
        1
    } else if eq_str(u, "KiB") {
        1024
    } else if eq_str(u, "MiB") {
        1048576
    } else if eq_str(u, "GiB") {
        1073741824
    } else {
        0
    }
}

/// The size on an `Installed Size  : 12.50 MiB` line: the number text after
/// the first `:` and its unit's multiplier; `None` when the value has fewer
/// than two words or an unknown unit.
pub open spec fn qi_line_size(line: Seq<char>) -> Option<(Seq<char>, u64)> {
    let ps = split_on(line, ':');
    if ps.len() < 2 {
        None
    } else {
        let ws = split_ws(trim(ps[1]));
        if ws.len() < 2 || qi_unit(ws[1]) == 0 {
            None
        } else {
            Some((ws[0], qi_unit(ws[1])))
        }
    }
}

/// Reads the size on a `pacman -Qi` size line.
pub fn parse_pacman_size(line: &str) -> (r: Option<(String, u64)>)
    ensures
        match r {
            Some((n, m)) => qi_line_size(line@) == Some((n@, m)),
            None => qi_line_size(line@).is_none(),
        },
{
    let v = chars_of(line);
    let ps = split_char(&v, ':');
    if ps.len() < 2 {
        return None;
    }
    proof {
        assert(pieces(ps@)[1] == ps@[1]@);
    }
    let t = trim_chars(&ps[1]);
    let ws = split_whitespace(&t);
    if ws.len() < 2 {
        return None;
    }
    proof {
        assert(pieces(ws@)[0] == ws@[0]@ && pieces(ws@)[1] == ws@[1]@);
    }
    let m = qi_unit_of(&ws[1]);
    if m == 0 {
        return None;
    }
    Some((string_of(&ws[0]), m))
}

/// The sizes listed in `pacman -Qi` output: those of the lines that start
/// with `Installed Size` and can be read.
pub open spec fn qi_sizes(ls: Seq<Seq<char>>) -> Seq<(Seq<char>, u64)>
    decreases ls.len(),
{
    if ls.len() == 0 {
        seq![]
    } else {
        let rest = qi_sizes(ls.drop_last());
        if starts_with(ls.last(), "Installed Size"@) && qi_line_size(ls.last()).is_some() {
            rest.push(qi_line_size(ls.last()).unwrap())
        } else {
            rest
        }
    }
}

pub open spec fn parts_view(v: Seq<(String, u64)>) -> Seq<(Seq<char>, u64)> {
    v.map_values(|x: (String, u64)| (x.0@, x.1))
}

/// The installed sizes in the `pacman -Qi` output for an orphaned package.
pub fn orphan_size_parts(qi_text: &str) -> (r: Vec<(String, u64)>)
    ensures
        parts_view(r@) == qi_sizes(lines(qi_text@)),
{
    let v = chars_of(qi_text);
    let ls = lines_of(&v);
    let ghost all = pieces(ls@);
    let prefix = chars_of("Installed Size");
    let mut out: Vec<(String, u64)> = Vec::new();
    let mut i: usize = 0;
    proof {
        assert(parts_view(out@) =~= qi_sizes(all.take(0)));
    }
    while i < ls.len()
        invariant
            i <= ls@.len(),
            all == pieces(ls@),
            all == lines(qi_text@),
            prefix@ == "Installed Size"@,
            parts_view(out@) == qi_sizes(all.take(i as int)),
        decreases ls@.len() - i,
    {
        proof {
            assert(all.take(i + 1).drop_last() =~= all.take(i as int));
            assert(all.take(i + 1).last() == ls@[i as int]@);
        }
        if has_prefix(&ls[i], &prefix) {
            let line = string_of(&ls[i]);
            match parse_pacman_size(line.as_str()) {
                Some(x) => {
                    let ghost before = out@;
                    out.push(x);
                    proof {
                        assert(parts_view(out@) =~= parts_view(before).push((x.0@, x.1)));
                    }
                },
                None => {},
            }
        }
        i = i + 1;
    }
    proof {
        assert(all.take(all.len() as int) =~= all);
    }
    out
}

/// The names of the orphaned packages in `pacman -Qdtq` output: its
/// non-empty lines.
pub fn orphan_names(text: &str) -> (r: Vec<String>)
    ensures
        strs(r@) == lines(text@).filter(|l: Seq<char>| l.len() > 0),
{
    let v = chars_of(text);
    let ls = lines_of(&v);
    let ghost all = pieces(ls@);
    let mut out: Vec<String> = Vec::new();
    let mut i: usize = 0;
    proof {
        reveal_with_fuel(Seq::filter, 1);
        assert(all.take(0).filter(|l: Seq<char>| l.len() > 0) =~= Seq::<Seq<char>>::empty());
    }
    while i < ls.len()
        invariant
            i <= ls@.len(),
            all == pieces(ls@),
            all == lines(text@),
            strs(out@) == all.take(i as int).filter(|l: Seq<char>| l.len() > 0),
        decreases ls@.len() - i,
    {
        proof {
            reveal_with_fuel(Seq::filter, 1);
            assert(all.take(i + 1).drop_last() =~= all.take(i as int));
            assert(all.take(i + 1).last() == ls@[i as int]@);
        }
        if ls[i].len() > 0 {
            let s = string_of(&ls[i]);
            proof {
                lemma_strs_push(out@, s);
            }
            out.push(s);
        }
        i = i + 1;
    }
    proof {
        assert(all.take(all.len() as int) =~= all);
    }
    out
}

/// The byte multiplier of a unit in `flatpak list --unused` sizes; an
/// unknown unit counts as bytes.
pub open spec fn unused_unit(u: Seq<char>) -> u64 {
    if u == "kB"@ {
        1000
    } else if u == "MB"@ {
        1000000
    } else if u == "GB"@ {
        1000000000
    } else {
        1
    }
}

/// The sizes of `flatpak list --unused --columns=size` output: after the
/// header line, each non-blank line with at least two words gives its first
/// word and the multiplier of its second.
pub open spec fn unused_sizes(ls: Seq<Seq<char>>) -> Seq<(Seq<char>, u64)>
    decreases ls.len(),
{
    if ls.len() == 0 {
        seq![]
    } else {
        let rest = unused_sizes(ls.drop_last());
        let ws = split_ws(trim(ls.last()));
        if trim(ls.last()).len() > 0 && ws.len() >= 2 {
            rest.push((ws[0], unused_unit(ws[1])))
        } else {
            rest
        }
    }
}

/// The lines after the first.
pub open spec fn after_header(ls: Seq<Seq<char>>) -> Seq<Seq<char>> {
    if ls.len() > 0 {
        ls.skip(1)
    } else {
        ls
    }
}

/// Reads the sizes of the unused Flatpak runtimes.
pub fn flatpak_unused_parts(text: &str) -> (r: Vec<(String, u64)>)
    ensures
        parts_view(r@) == unused_sizes(after_header(lines(text@))),
{
    let v = chars_of(text);
    let ls = lines_of(&v);
    let ghost all = pieces(ls@);
    let ghost body = if all.len() > 0 { all.skip(1) } else { all };
    let mut out: Vec<(String, u64)> = Vec::new();
    let mut i: usize = 1;
    proof {
        assert(parts_view(out@) =~= unused_sizes(all.skip(1).take(0)));
    }
    while i < ls.len()
        invariant
            1 <= i,
            i <= ls@.len() || ls@.len() == 0,
            all == pieces(ls@),
            all == lines(text@),
            ls@.len() > 0 ==> parts_view(out@) == unused_sizes(all.skip(1).take(i - 1)),
            ls@.len() == 0 ==> out@.len() == 0,
        decreases ls@.len() - i,
    {
        proof {
            assert(all.skip(1).take(i as int).drop_last() =~= all.skip(1).take(i - 1));
            assert(all.skip(1).take(i as int).last() == ls@[i as int]@);
        }
        let t = trim_chars(&ls[i]);
        let ws = split_whitespace(&t);
        if t.len() > 0 && ws.len() >= 2 {
            proof {
                assert(pieces(ws@)[0] == ws@[0]@ && pieces(ws@)[1] == ws@[1]@);
            }
            let n = string_of(&ws[0]);
            let m: u64 = if eq_str(&ws[1], "kB") {
                1000
            } else if eq_str(&ws[1], "MB") {
                1000000
            } else if eq_str(&ws[1], "GB") {
                1000000000
            } else {
                1
            };
            let ghost before = out@;
            out.push((n, m));
            proof {
                assert(parts_view(out@) =~= parts_view(before).push((n@, m)));
            }
        }
        i = i + 1;
    }
    proof {
        if ls@.len() > 0 {
            assert(all.skip(1).take(all.len() - 1) =~= all.skip(1));
        } else {
            assert(parts_view(out@) =~= Seq::<(Seq<char>, u64)>::empty());
        }
    }
    out
}

/// The byte multiplier of the unit letter ending a `journalctl
/// --disk-usage` size, or 0 when the word does not end in `K`, `M` or `G`.
pub open spec fn journal_unit(w: Seq<char>) -> u64 {
    if w.len() == 0 {
        0
    } else if w.last() == 'K' {
        1024
    } else if w.last() == 'M' {
        1048576
    } else if w.last() == 'G' {
        1073741824
    } else {
        0
    }
}

/// The words of `journalctl --disk-usage` output that may be its size
/// (`"371.2M"`), in order: each word ending in `K`, `M` or `G`, as its
/// number text and unit multiplier.  The first whose number reads is the
/// journal's size.
pub open spec fn journal_candidates(ws: Seq<Seq<char>>) -> Seq<(Seq<char>, u64)>
    decreases ws.len(),
{
    if ws.len() == 0 {
        seq![]
    } else {
        let rest = journal_candidates(ws.drop_last());
        let w = ws.last();
        if journal_unit(w) > 0 {
            rest.push((w.drop_last(), journal_unit(w)))
        } else {
            rest
        }
    }
}

/// Reads the possible journal sizes.
pub fn journal_size_candidates(text: &str) -> (r: Vec<(String, u64)>)
    ensures
        parts_view(r@) == journal_candidates(split_ws(text@)),
{
    let v = chars_of(text);
    let ws = split_whitespace(&v);
    let ghost all = pieces(ws@);
    let mut out: Vec<(String, u64)> = Vec::new();
    let mut i: usize = 0;
    proof {
        assert(parts_view(out@) =~= journal_candidates(all.take(0)));
    }
    while i < ws.len()
        invariant
            i <= ws@.len(),
            all == pieces(ws@),
            all == split_ws(text@),
            parts_view(out@) == journal_candidates(all.take(i as int)),
        decreases ws@.len() - i,
    {
        proof {
            assert(all.take(i + 1).drop_last() =~= all.take(i as int));
            assert(all.take(i + 1).last() == ws@[i as int]@);
        }
        let w = &ws[i];
        if w.len() > 0 {
            let last = w[w.len() - 1];
            let m: u64 = if last == 'K' {
                1024
            } else if last == 'M' {
                1048576
            } else if last == 'G' {
                1073741824
            } else {
                0
            };
            if m > 0 {
                let n = string_of(&copy_range(w, 0, w.len() - 1));
                let ghost before = out@;
                out.push((n, m));
                proof {
                    assert(w@.drop_last() =~= w@.subrange(0, w@.len() - 1));
                    assert(parts_view(out@) =~= parts_view(before).push((n@, m)));
                }
            }
        }
        i = i + 1;
    }
    proof {
        assert(all.take(all.len() as int) =~= all);
    }
    out
}

/// The size part of a `docker system df` reclaimable line (`"381.2MB
/// (100%)"` gives `"381.2MB"`): the text before `(`, trimmed.
pub fn docker_size_text(line: &str) -> (r: String)
    ensures
        r@ == trim(before_char(line@, '(')),
{
    let v = chars_of(line);
    string_of(&trim_chars(&before_first(&v, '(')))
}

/// The number text and unit multiplier of a docker size (decimal units):
/// `GB`, `MB`, `kB`, then plain `B`, each removed as often as it repeats at
/// the end; `None` for any other ending.
pub open spec fn docker_size(s: Seq<char>) -> Option<(Seq<char>, u64)> {
    let t = trim(s);
    if ends_with(t, "GB"@) {
        Some((trim_end_matches(t, "GB"@), 1000000000))
    } else if ends_with(t, "MB"@) {
        Some((trim_end_matches(t, "MB"@), 1000000))
    } else if ends_with(t, "kB"@) {
        Some((trim_end_matches(t, "kB"@), 1000))
    } else if ends_with(t, "B"@) {
        Some((trim_end_matches(t, "B"@), 1))
    } else {
        None
    }
}

/// Splits a docker size such as `"381.2MB"` into number text and unit
/// multiplier.
pub fn parse_docker_size(s: &str) -> (r: Option<(String, u64)>)
    ensures
        match r {
            Some((n, m)) => docker_size(s@) == Some((n@, m)),
            None => docker_size(s@).is_none(),
        },
{
    let v = chars_of(s);
    let t = trim_chars(&v);
    let gb = chars_of("GB");
    let mb = chars_of("MB");
    let kb = chars_of("kB");
    let b = chars_of("B");
    if has_suffix(&t, &gb) {
        Some((string_of(&strip_suffixes(&t, &gb)), 1000000000))
    } else if has_suffix(&t, &mb) {
        Some((string_of(&strip_suffixes(&t, &mb)), 1000000))
    } else if has_suffix(&t, &kb) {
        Some((string_of(&strip_suffixes(&t, &kb)), 1000))
    } else if has_suffix(&t, &b) {
        Some((string_of(&strip_suffixes(&t, &b)), 1))
    } else {
        None
    }
}

// ---------------------------------------------------------------------------
// Finding Rust target directories
// ---------------------------------------------------------------------------

/// What a directory found under `~/Programs` is for the search.
pub enum DirVisit {
    /// A directory named `target`: a build directory if it looks like one.
    Target,
    /// Any other directory, searched in turn.
    Descend,
    /// `.git` and `node_modules`, never searched.
    Skip,
}

/// Decides what to do with a directory of the given name.
pub fn classify_dir(name: &str) -> (r: DirVisit)
    ensures
        name@ == "target"@ ==> r is Target,
        (name@ == ".git"@ || name@ == "node_modules"@) ==> r is Skip,
        (name@ != "target"@ && name@ != ".git"@ && name@ != "node_modules"@) ==> r is Descend,
{
    let v = chars_of(name);
    proof {
        reveal_strlit("target");
        reveal_strlit(".git");
        reveal_strlit("node_modules");
        assert("target"@[0] != ".git"@[0]);
        assert("target"@[0] != "node_modules"@[0]);
    }
    if eq_str(&v, "target") {
        DirVisit::Target
    } else if eq_str(&v, ".git") || eq_str(&v, "node_modules") {
        DirVisit::Skip
    } else {
        DirVisit::Descend
    }
}

/// Whether the search reads a directory at this depth below `~/Programs`
/// (the directory itself is depth 0; deeper than 4 is not read).
pub fn depth_searched(depth: usize) -> (r: bool)
    ensures
        r == (depth <= 4),
{
    depth <= 4
}

/// Whether a `target` directory is a Rust build directory: it holds
/// `CACHEDIR.TAG`, `debug` or `release`.
pub fn is_rust_target(has_cachedir_tag: bool, has_debug: bool, has_release: bool) -> (r: bool)
    ensures
        r == (has_cachedir_tag || has_debug || has_release),
{
    has_cachedir_tag || has_debug || has_release
}

/// Whether every task of a list has something to clean and is unchecked.
pub open spec fn all_worth_offering(s: Seq<ItemView>) -> bool {
    forall|j: int| 0 <= j < s.len() ==> #[trigger] s[j].size > 0 && !s[j].checked
}

proof fn lemma_join_worth(a: Seq<ItemView>, b: Seq<ItemView>)
    requires
        all_worth_offering(a),
        all_worth_offering(b),
    ensures
        all_worth_offering(a + b),
{
    assert forall|j: int| 0 <= j < (a + b).len() implies #[trigger] (a + b)[j].size > 0 && !(a + b)[j].checked by {
        if j < a.len() {
            assert((a + b)[j] == a[j]);
            assert(a[j].size > 0 && !a[j].checked);
        } else {
            assert((a + b)[j] == b[j - a.len()]);
            assert(b[j - a.len()].size > 0 && !b[j - a.len()].checked);
        }
    }
}

proof fn lemma_package_tasks_worth(home: Seq<char>, u: DiskUsage)
    ensures
        all_worth_offering(package_cache_tasks(home, u)),
{
    let t = package_cache_tasks(home, u);
    assert forall|j: int| 0 <= j < t.len() implies #[trigger] t[j].size > 0 && !t[j].checked by {
        broadcast use vstd::seq::group_seq_axioms;
    }
}

proof fn lemma_dev_tasks_worth(home: Seq<char>, u: DiskUsage)
    requires
        sums_fit(u),
    ensures
        all_worth_offering(dev_tool_tasks(home, u)),
{
    let t = dev_tool_tasks(home, u);
    assert forall|j: int| 0 <= j < t.len() implies #[trigger] t[j].size > 0 && !t[j].checked by {
        broadcast use vstd::seq::group_seq_axioms;
    }
}

proof fn lemma_app_tasks_worth(home: Seq<char>, u: DiskUsage)
    requires
        sums_fit(u),
    ensures
        all_worth_offering(app_cache_tasks(home, u)),
{
    let t = app_cache_tasks(home, u);
    assert forall|j: int| 0 <= j < t.len() implies #[trigger] t[j].size > 0 && !t[j].checked by {
        broadcast use vstd::seq::group_seq_axioms;
    }
}

proof fn lemma_system_tasks_worth(home: Seq<char>, u: DiskUsage)
    ensures
        all_worth_offering(system_tasks(home, u)),
{
    let t = system_tasks(home, u);
    assert forall|j: int| 0 <= j < t.len() implies #[trigger] t[j].size > 0 && !t[j].checked by {
        broadcast use vstd::seq::group_seq_axioms;
    }
}

/// Every offered task has something to clean and starts unchecked.
pub proof fn lemma_tasks_worth_offering(home: Seq<char>, u: DiskUsage)
    requires
        sums_fit(u),
    ensures
        all_worth_offering(maintenance_tasks(home, u)),
{
    lemma_package_tasks_worth(home, u);
    lemma_dev_tasks_worth(home, u);
    lemma_app_tasks_worth(home, u);
    lemma_system_tasks_worth(home, u);
    lemma_join_worth(package_cache_tasks(home, u), dev_tool_tasks(home, u));
    lemma_join_worth(package_cache_tasks(home, u) + dev_tool_tasks(home, u), app_cache_tasks(home, u));
    lemma_join_worth(
        package_cache_tasks(home, u) + dev_tool_tasks(home, u) + app_cache_tasks(home, u),
        system_tasks(home, u),
    );
}

/// The space a cleanup task frees, by the task's id: the measured size of
/// everything its command removes (both Cargo caches, both Tauri caches,
/// each other cache, leftover or report on its own).
pub open spec fn freed_size(id: Seq<char>, u: DiskUsage) -> int {
    if id == "pacman-cache"@ {
        size_or_zero(u.pacman_cache)
    } else if id == "aur-cache"@ {
        size_or_zero(u.yay_cache)
    } else if id == "debtap-cache"@ {
        size_or_zero(u.debtap_cache)
    } else if id == "orphans"@ {
        u.orphans as int
    } else if id == "flatpak-unused"@ {
        u.flatpak_unused as int
    } else if id == "cargo-cache"@ {
        size_or_zero(u.cargo_registry) + size_or_zero(u.cargo_git)
    } else if id == "rust-targets"@ {
        targets_size(u.rust_targets@)
    } else if id == "npm-cache"@ {
        size_or_zero(u.npm_cache)
    } else if id == "pip-cache"@ {
        size_or_zero(u.pip_cache)
    } else if id == "go-cache"@ {
        size_or_zero(u.go_cache)
    } else if id == "electron-cache"@ {
        u.electron_caches as int
    } else if id == "tauri-cache"@ {
        size_or_zero(u.tauri_cache) + size_or_zero(u.temp_tauri)
    } else if id == "coredumps"@ {
        size_or_zero(u.coredumps)
    } else if id == "journal"@ {
        u.journal as int
    } else if id == "thumbnails"@ {
        size_or_zero(u.thumbnails)
    } else if id == "trash"@ {
        size_or_zero(u.trash)
    } else if id == "docker-images"@ {
        u.docker_reclaimable as int
    } else {
        0
    }
}

/// Whether every task of a list reports the space it frees.
pub open spec fn sizes_freed(s: Seq<ItemView>, u: DiskUsage) -> bool {
    forall|j: int| 0 <= j < s.len() ==> (#[trigger] s[j]).size == freed_size(s[j].id, u)
}

proof fn lemma_join_freed(a: Seq<ItemView>, b: Seq<ItemView>, u: DiskUsage)
    requires
        sizes_freed(a, u),
        sizes_freed(b, u),
    ensures
        sizes_freed(a + b, u),
{
    assert forall|j: int| 0 <= j < (a + b).len() implies (#[trigger] (a + b)[j]).size == freed_size((a + b)[j].id, u) by {
        if j < a.len() {
            assert((a + b)[j] == a[j]);
        } else {
            assert((a + b)[j] == b[j - a.len()]);
        }
    }
}

proof fn lemma_literal_ids()
    ensures
        "pacman-cache"@ != "aur-cache"@,
        "pacman-cache"@ != "debtap-cache"@,
        "pacman-cache"@ != "orphans"@,
        "pacman-cache"@ != "flatpak-unused"@,
        "pacman-cache"@ != "cargo-cache"@,
        "pacman-cache"@ != "rust-targets"@,
        "pacman-cache"@ != "npm-cache"@,
        "pacman-cache"@ != "pip-cache"@,
        "pacman-cache"@ != "go-cache"@,
        "pacman-cache"@ != "electron-cache"@,
        "pacman-cache"@ != "tauri-cache"@,
        "pacman-cache"@ != "coredumps"@,
        "pacman-cache"@ != "journal"@,
        "pacman-cache"@ != "thumbnails"@,
        "pacman-cache"@ != "trash"@,
        "pacman-cache"@ != "docker-images"@,
        "aur-cache"@ != "debtap-cache"@,
        "aur-cache"@ != "orphans"@,
        "aur-cache"@ != "flatpak-unused"@,
        "aur-cache"@ != "cargo-cache"@,
        "aur-cache"@ != "rust-targets"@,
        "aur-cache"@ != "npm-cache"@,
        "aur-cache"@ != "pip-cache"@,
        "aur-cache"@ != "go-cache"@,
        "aur-cache"@ != "electron-cache"@,
        "aur-cache"@ != "tauri-cache"@,
        "aur-cache"@ != "coredumps"@,
        "aur-cache"@ != "journal"@,
        "aur-cache"@ != "thumbnails"@,
        "aur-cache"@ != "trash"@,
        "aur-cache"@ != "docker-images"@,
        "debtap-cache"@ != "orphans"@,
        "debtap-cache"@ != "flatpak-unused"@,
        "debtap-cache"@ != "cargo-cache"@,
        "debtap-cache"@ != "rust-targets"@,
        "debtap-cache"@ != "npm-cache"@,
        "debtap-cache"@ != "pip-cache"@,
        "debtap-cache"@ != "go-cache"@,
        "debtap-cache"@ != "electron-cache"@,
        "debtap-cache"@ != "tauri-cache"@,
        "debtap-cache"@ != "coredumps"@,
        "debtap-cache"@ != "journal"@,
        "debtap-cache"@ != "thumbnails"@,
        "debtap-cache"@ != "trash"@,
        "debtap-cache"@ != "docker-images"@,
        "orphans"@ != "flatpak-unused"@,
        "orphans"@ != "cargo-cache"@,
        "orphans"@ != "rust-targets"@,
        "orphans"@ != "npm-cache"@,
        "orphans"@ != "pip-cache"@,
        "orphans"@ != "go-cache"@,
        "orphans"@ != "electron-cache"@,
        "orphans"@ != "tauri-cache"@,
        "orphans"@ != "coredumps"@,
        "orphans"@ != "journal"@,
        "orphans"@ != "thumbnails"@,
        "orphans"@ != "trash"@,
        "orphans"@ != "docker-images"@,
        "flatpak-unused"@ != "cargo-cache"@,
        "flatpak-unused"@ != "rust-targets"@,
        "flatpak-unused"@ != "npm-cache"@,
        "flatpak-unused"@ != "pip-cache"@,
        "flatpak-unused"@ != "go-cache"@,
        "flatpak-unused"@ != "electron-cache"@,
        "flatpak-unused"@ != "tauri-cache"@,
        "flatpak-unused"@ != "coredumps"@,
        "flatpak-unused"@ != "journal"@,
        "flatpak-unused"@ != "thumbnails"@,
        "flatpak-unused"@ != "trash"@,
        "flatpak-unused"@ != "docker-images"@,
        "cargo-cache"@ != "rust-targets"@,
        "cargo-cache"@ != "npm-cache"@,
        "cargo-cache"@ != "pip-cache"@,
        "cargo-cache"@ != "go-cache"@,
        "cargo-cache"@ != "electron-cache"@,
        "cargo-cache"@ != "tauri-cache"@,
        "cargo-cache"@ != "coredumps"@,
        "cargo-cache"@ != "journal"@,
        "cargo-cache"@ != "thumbnails"@,
        "cargo-cache"@ != "trash"@,
        "cargo-cache"@ != "docker-images"@,
        "rust-targets"@ != "npm-cache"@,
        "rust-targets"@ != "pip-cache"@,
        "rust-targets"@ != "go-cache"@,
        "rust-targets"@ != "electron-cache"@,
        "rust-targets"@ != "tauri-cache"@,
        "rust-targets"@ != "coredumps"@,
        "rust-targets"@ != "journal"@,
        "rust-targets"@ != "thumbnails"@,
        "rust-targets"@ != "trash"@,
        "rust-targets"@ != "docker-images"@,
        "npm-cache"@ != "pip-cache"@,
        "npm-cache"@ != "go-cache"@,
        "npm-cache"@ != "electron-cache"@,
        "npm-cache"@ != "tauri-cache"@,
        "npm-cache"@ != "coredumps"@,
        "npm-cache"@ != "journal"@,
        "npm-cache"@ != "thumbnails"@,
        "npm-cache"@ != "trash"@,
        "npm-cache"@ != "docker-images"@,
        "pip-cache"@ != "go-cache"@,
        "pip-cache"@ != "electron-cache"@,
        "pip-cache"@ != "tauri-cache"@,
        "pip-cache"@ != "coredumps"@,
        "pip-cache"@ != "journal"@,
        "pip-cache"@ != "thumbnails"@,
        "pip-cache"@ != "trash"@,
        "pip-cache"@ != "docker-images"@,
        "go-cache"@ != "electron-cache"@,
        "go-cache"@ != "tauri-cache"@,
        "go-cache"@ != "coredumps"@,
        "go-cache"@ != "journal"@,
        "go-cache"@ != "thumbnails"@,
        "go-cache"@ != "trash"@,
        "go-cache"@ != "docker-images"@,
        "electron-cache"@ != "tauri-cache"@,
        "electron-cache"@ != "coredumps"@,
        "electron-cache"@ != "journal"@,
        "electron-cache"@ != "thumbnails"@,
        "electron-cache"@ != "trash"@,
        "electron-cache"@ != "docker-images"@,
        "tauri-cache"@ != "coredumps"@,
        "tauri-cache"@ != "journal"@,
        "tauri-cache"@ != "thumbnails"@,
        "tauri-cache"@ != "trash"@,
        "tauri-cache"@ != "docker-images"@,
        "coredumps"@ != "journal"@,
        "coredumps"@ != "thumbnails"@,
        "coredumps"@ != "trash"@,
        "coredumps"@ != "docker-images"@,
        "journal"@ != "thumbnails"@,
        "journal"@ != "trash"@,
        "journal"@ != "docker-images"@,
        "thumbnails"@ != "trash"@,
        "thumbnails"@ != "docker-images"@,
        "trash"@ != "docker-images"@,
{
    reveal_strlit("pacman-cache");
    reveal_strlit("aur-cache");
    reveal_strlit("debtap-cache");
    reveal_strlit("orphans");
    reveal_strlit("flatpak-unused");
    reveal_strlit("cargo-cache");
    reveal_strlit("rust-targets");
    reveal_strlit("npm-cache");
    reveal_strlit("pip-cache");
    reveal_strlit("go-cache");
    reveal_strlit("electron-cache");
    reveal_strlit("tauri-cache");
    reveal_strlit("coredumps");
    reveal_strlit("journal");
    reveal_strlit("thumbnails");
    reveal_strlit("trash");
    reveal_strlit("docker-images");
    assert("pacman-cache"@.len() != "aur-cache"@.len());
    assert("pacman-cache"@[0] != "debtap-cache"@[0]);
    assert("pacman-cache"@.len() != "orphans"@.len());
    assert("pacman-cache"@.len() != "flatpak-unused"@.len());
    assert("pacman-cache"@.len() != "cargo-cache"@.len());
    assert("pacman-cache"@[0] != "rust-targets"@[0]);
    assert("pacman-cache"@.len() != "npm-cache"@.len());
    assert("pacman-cache"@.len() != "pip-cache"@.len());
    assert("pacman-cache"@.len() != "go-cache"@.len());
    assert("pacman-cache"@.len() != "electron-cache"@.len());
    assert("pacman-cache"@.len() != "tauri-cache"@.len());
    assert("pacman-cache"@.len() != "coredumps"@.len());
    assert("pacman-cache"@.len() != "journal"@.len());
    assert("pacman-cache"@.len() != "thumbnails"@.len());
    assert("pacman-cache"@.len() != "trash"@.len());
    assert("pacman-cache"@.len() != "docker-images"@.len());
    assert("aur-cache"@.len() != "debtap-cache"@.len());
    assert("aur-cache"@.len() != "orphans"@.len());
    assert("aur-cache"@.len() != "flatpak-unused"@.len());
    assert("aur-cache"@.len() != "cargo-cache"@.len());
    assert("aur-cache"@.len() != "rust-targets"@.len());
    assert("aur-cache"@[0] != "npm-cache"@[0]);
    assert("aur-cache"@[0] != "pip-cache"@[0]);
    assert("aur-cache"@.len() != "go-cache"@.len());
    assert("aur-cache"@.len() != "electron-cache"@.len());
    assert("aur-cache"@.len() != "tauri-cache"@.len());
    assert("aur-cache"@[0] != "coredumps"@[0]);
    assert("aur-cache"@.len() != "journal"@.len());
    assert("aur-cache"@.len() != "thumbnails"@.len());
    assert("aur-cache"@.len() != "trash"@.len());
    assert("aur-cache"@.len() != "docker-images"@.len());
    assert("debtap-cache"@.len() != "orphans"@.len());
    assert("debtap-cache"@.len() != "flatpak-unused"@.len());
    assert("debtap-cache"@.len() != "cargo-cache"@.len());
    assert("debtap-cache"@[0] != "rust-targets"@[0]);
    assert("debtap-cache"@.len() != "npm-cache"@.len());
    assert("debtap-cache"@.len() != "pip-cache"@.len());
    assert("debtap-cache"@.len() != "go-cache"@.len());
    assert("debtap-cache"@.len() != "electron-cache"@.len());
    assert("debtap-cache"@.len() != "tauri-cache"@.len());
    assert("debtap-cache"@.len() != "coredumps"@.len());
    assert("debtap-cache"@.len() != "journal"@.len());
    assert("debtap-cache"@.len() != "thumbnails"@.len());
    assert("debtap-cache"@.len() != "trash"@.len());
    assert("debtap-cache"@.len() != "docker-images"@.len());
    assert("orphans"@.len() != "flatpak-unused"@.len());
    assert("orphans"@.len() != "cargo-cache"@.len());
    assert("orphans"@.len() != "rust-targets"@.len());
    assert("orphans"@.len() != "npm-cache"@.len());
    assert("orphans"@.len() != "pip-cache"@.len());
    assert("orphans"@.len() != "go-cache"@.len());
    assert("orphans"@.len() != "electron-cache"@.len());
    assert("orphans"@.len() != "tauri-cache"@.len());
    assert("orphans"@.len() != "coredumps"@.len());
    assert("orphans"@[0] != "journal"@[0]);
    assert("orphans"@.len() != "thumbnails"@.len());
    assert("orphans"@.len() != "trash"@.len());
    assert("orphans"@.len() != "docker-images"@.len());
    assert("flatpak-unused"@.len() != "cargo-cache"@.len());
    assert("flatpak-unused"@.len() != "rust-targets"@.len());
    assert("flatpak-unused"@.len() != "npm-cache"@.len());
    assert("flatpak-unused"@.len() != "pip-cache"@.len());
    assert("flatpak-unused"@.len() != "go-cache"@.len());
    assert("flatpak-unused"@[0] != "electron-cache"@[0]);
    assert("flatpak-unused"@.len() != "tauri-cache"@.len());
    assert("flatpak-unused"@.len() != "coredumps"@.len());
    assert("flatpak-unused"@.len() != "journal"@.len());
    assert("flatpak-unused"@.len() != "thumbnails"@.len());
    assert("flatpak-unused"@.len() != "trash"@.len());
    assert("flatpak-unused"@.len() != "docker-images"@.len());
    assert("cargo-cache"@.len() != "rust-targets"@.len());
    assert("cargo-cache"@.len() != "npm-cache"@.len());
    assert("cargo-cache"@.len() != "pip-cache"@.len());
    assert("cargo-cache"@.len() != "go-cache"@.len());
    assert("cargo-cache"@.len() != "electron-cache"@.len());
    assert("cargo-cache"@[0] != "tauri-cache"@[0]);
    assert("cargo-cache"@.len() != "coredumps"@.len());
    assert("cargo-cache"@.len() != "journal"@.len());
    assert("cargo-cache"@.len() != "thumbnails"@.len());
    assert("cargo-cache"@.len() != "trash"@.len());
    assert("cargo-cache"@.len() != "docker-images"@.len());
    assert("rust-targets"@.len() != "npm-cache"@.len());
    assert("rust-targets"@.len() != "pip-cache"@.len());
    assert("rust-targets"@.len() != "go-cache"@.len());
    assert("rust-targets"@.len() != "electron-cache"@.len());
    assert("rust-targets"@.len() != "tauri-cache"@.len());
    assert("rust-targets"@.len() != "coredumps"@.len());
    assert("rust-targets"@.len() != "journal"@.len());
    assert("rust-targets"@.len() != "thumbnails"@.len());
    assert("rust-targets"@.len() != "trash"@.len());
    assert("rust-targets"@.len() != "docker-images"@.len());
    assert("npm-cache"@[0] != "pip-cache"@[0]);
    assert("npm-cache"@.len() != "go-cache"@.len());
    assert("npm-cache"@.len() != "electron-cache"@.len());
    assert("npm-cache"@.len() != "tauri-cache"@.len());
    assert("npm-cache"@[0] != "coredumps"@[0]);
    assert("npm-cache"@.len() != "journal"@.len());
    assert("npm-cache"@.len() != "thumbnails"@.len());
    assert("npm-cache"@.len() != "trash"@.len());
    assert("npm-cache"@.len() != "docker-images"@.len());
    assert("pip-cache"@.len() != "go-cache"@.len());
    assert("pip-cache"@.len() != "electron-cache"@.len());
    assert("pip-cache"@.len() != "tauri-cache"@.len());
    assert("pip-cache"@[0] != "coredumps"@[0]);
    assert("pip-cache"@.len() != "journal"@.len());
    assert("pip-cache"@.len() != "thumbnails"@.len());
    assert("pip-cache"@.len() != "trash"@.len());
    assert("pip-cache"@.len() != "docker-images"@.len());
    assert("go-cache"@.len() != "electron-cache"@.len());
    assert("go-cache"@.len() != "tauri-cache"@.len());
    assert("go-cache"@.len() != "coredumps"@.len());
    assert("go-cache"@.len() != "journal"@.len());
    assert("go-cache"@.len() != "thumbnails"@.len());
    assert("go-cache"@.len() != "trash"@.len());
    assert("go-cache"@.len() != "docker-images"@.len());
    assert("electron-cache"@.len() != "tauri-cache"@.len());
    assert("electron-cache"@.len() != "coredumps"@.len());
    assert("electron-cache"@.len() != "journal"@.len());
    assert("electron-cache"@.len() != "thumbnails"@.len());
    assert("electron-cache"@.len() != "trash"@.len());
    assert("electron-cache"@.len() != "docker-images"@.len());
    assert("tauri-cache"@.len() != "coredumps"@.len());
    assert("tauri-cache"@.len() != "journal"@.len());
    assert("tauri-cache"@.len() != "thumbnails"@.len());
    assert("tauri-cache"@.len() != "trash"@.len());
    assert("tauri-cache"@.len() != "docker-images"@.len());
    assert("coredumps"@.len() != "journal"@.len());
    assert("coredumps"@.len() != "thumbnails"@.len());
    assert("coredumps"@.len() != "trash"@.len());
    assert("coredumps"@.len() != "docker-images"@.len());
    assert("journal"@.len() != "thumbnails"@.len());
    assert("journal"@.len() != "trash"@.len());
    assert("journal"@.len() != "docker-images"@.len());
    assert("thumbnails"@.len() != "trash"@.len());
    assert("thumbnails"@.len() != "docker-images"@.len());
    assert("trash"@.len() != "docker-images"@.len());
}

proof fn lemma_package_tasks_freed(home: Seq<char>, u: DiskUsage)
    ensures
        sizes_freed(package_cache_tasks(home, u), u),
{
    lemma_literal_ids();
    let t = package_cache_tasks(home, u);
    assert forall|j: int| 0 <= j < t.len() implies (#[trigger] t[j]).size == freed_size(t[j].id, u) by {
        broadcast use vstd::seq::group_seq_axioms;
    }
}

proof fn lemma_dev_tasks_freed(home: Seq<char>, u: DiskUsage)
    requires
        sums_fit(u),
    ensures
        sizes_freed(dev_tool_tasks(home, u), u),
{
    lemma_literal_ids();
    let t = dev_tool_tasks(home, u);
    assert forall|j: int| 0 <= j < t.len() implies (#[trigger] t[j]).size == freed_size(t[j].id, u) by {
        broadcast use vstd::seq::group_seq_axioms;
    }
}

proof fn lemma_app_tasks_freed(home: Seq<char>, u: DiskUsage)
    requires
        sums_fit(u),
    ensures
        sizes_freed(app_cache_tasks(home, u), u),
{
    lemma_literal_ids();
    let t = app_cache_tasks(home, u);
    assert forall|j: int| 0 <= j < t.len() implies (#[trigger] t[j]).size == freed_size(t[j].id, u) by {
        broadcast use vstd::seq::group_seq_axioms;
    }
}

proof fn lemma_system_tasks_freed(home: Seq<char>, u: DiskUsage)
    ensures
        sizes_freed(system_tasks(home, u), u),
{
    lemma_literal_ids();
    let t = system_tasks(home, u);
    assert forall|j: int| 0 <= j < t.len() implies (#[trigger] t[j]).size == freed_size(t[j].id, u) by {
        broadcast use vstd::seq::group_seq_axioms;
    }
}

/// Every cleanup task reports as its size the space it frees: the total of
/// the measured sizes of everything its command removes.
pub proof fn lemma_task_sizes_are_freed_space(home: Seq<char>, u: DiskUsage)
    requires
        sums_fit(u),
    ensures
        sizes_freed(maintenance_tasks(home, u), u),
{
    lemma_package_tasks_freed(home, u);
    lemma_dev_tasks_freed(home, u);
    lemma_app_tasks_freed(home, u);
    lemma_system_tasks_freed(home, u);
    lemma_join_freed(package_cache_tasks(home, u), dev_tool_tasks(home, u), u);
    lemma_join_freed(package_cache_tasks(home, u) + dev_tool_tasks(home, u), app_cache_tasks(home, u), u);
    lemma_join_freed(
        package_cache_tasks(home, u) + dev_tool_tasks(home, u) + app_cache_tasks(home, u),
        system_tasks(home, u),
        u,
    );
}

} // verus!
