use sysclean::model::dep_tree::DependencyTree;
use sysclean::model::package::PackageInfo;
use sysclean::model::package_source::PackageSource;
use sysclean::model::removal_plan::{RemovalCommand, RemovalPlan};
use sysclean::remover::executor::{command_header, log_command_end, CommandEnd};
use sysclean::scanner::maintenance::MaintenanceItem;
use sysclean::ui::categories::{category_label_list, primary_category};
use sysclean::ui::graph_layout::{chars_less, root_key, sort_keys, GraphFilter, GraphSort};
use sysclean::ui::graph_node::{categories_text, related_text, source_size_text, package_names};
use sysclean::ui::graph_plan::plan_graph;
use sysclean::ui::graph_view::{
    category_filter, count_label, depth_label, description_line, edge_style, format_timestamp, info_text,
    installed_text, label_tone, max_shared, node_border, node_fill, search_matches, technical_name, title_text,
    EdgeStyle, LabelTone, NodeBorder, NodeFill, NodeState, Selection,
};
use sysclean::ui::maintenance_view::{
    checked, checked_size, clean_button_label, clean_summary, cleaning_status, group_headings, root_outcomes, root_script,
    scan_status, split_cleanups, total_size, Outcome,
};
use sysclean::ui::window::{
    checked_selected_size, confirm_body, confirm_details, confirm_heading, progress_complete_text, remove_button_label,
    removal_packages, removal_plan, removal_status, selection_status, checked_size_sum,
};

fn pkg(name: &str, source: PackageSource, explicit: bool, depends: &[&str], size: u64) -> PackageInfo {
    PackageInfo {
        id: String::new(),
        name: name.to_string(),
        display_name: String::new(),
        version: "1.0".to_string(),
        description: String::new(),
        categories: Vec::new(),
        icon_name: None,
        source,
        installed_size: size,
        depends: depends.iter().map(|s| s.to_string()).collect(),
        required_by: Vec::new(),
        provides: Vec::new(),
        is_explicit: explicit,
        is_protected: false,
        install_path: None,
        install_date: None,
    }
}

fn tree() -> DependencyTree {
    DependencyTree::build(vec![
        pkg("app", PackageSource::Pacman, true, &["libfoo", "libbar"], 300),
        pkg("other", PackageSource::Aur, true, &["libbar"], 200),
        pkg("libfoo", PackageSource::Pacman, false, &["glibc"], 10),
        pkg("libbar", PackageSource::Pacman, false, &["glibc"], 20),
        pkg("glibc", PackageSource::Pacman, false, &[], 50),
        pkg("lonely", PackageSource::Pacman, true, &[], 100),
    ])
}

fn strings(v: &[&str]) -> Vec<String> {
    v.iter().map(|s| s.to_string()).collect()
}

#[test]
fn primary_category_first_known_group() {
    assert_eq!(primary_category(&strings(&["GTK", "WebBrowser", "Game"])), "Network");
    assert_eq!(primary_category(&strings(&["Audio"])), "Audio/Video");
    assert_eq!(primary_category(&strings(&["X-Custom"])), "Other");
    assert_eq!(primary_category(&strings(&[])), "");
    assert_eq!(category_label_list().len(), 12);
    assert_eq!(category_label_list()[11], "Other");
}

#[test]
fn menus_choose_filter_and_sort() {
    assert_eq!(GraphFilter::from_menu_index(0), GraphFilter::DesktopApps);
    assert_eq!(GraphFilter::from_menu_index(1), GraphFilter::All);
    assert_eq!(GraphFilter::from_menu_index(3), GraphFilter::Aur);
    assert_eq!(GraphFilter::from_menu_index(9), GraphFilter::DesktopApps);
    assert_eq!(GraphSort::from_menu_index(4), GraphSort::Category);
    assert_eq!(GraphSort::from_menu_index(7), GraphSort::Alphabetical);
    assert_eq!(GraphFilter::default(), GraphFilter::All);
    assert_eq!(GraphSort::default(), GraphSort::Alphabetical);
}

#[test]
fn text_order_is_by_code_point() {
    let a: Vec<char> = "abc".chars().collect();
    let b: Vec<char> = "abd".chars().collect();
    let p: Vec<char> = "ab".chars().collect();
    assert!(chars_less(&a, &b));
    assert!(!chars_less(&b, &a));
    assert!(chars_less(&p, &a));
    assert!(!chars_less(&a, &a));
}

#[test]
fn sorting_keys_is_stable() {
    let mut x = pkg("B", PackageSource::Pacman, true, &[], 5);
    x.display_name = "beta".to_string();
    let y = pkg("alpha", PackageSource::Pacman, true, &[], 5);
    let z = pkg("Alpha", PackageSource::Pacman, true, &[], 9);
    let keys = vec![root_key(0, &x), root_key(1, &y), root_key(2, &z)];
    let by_name: Vec<usize> = sort_keys(GraphSort::Alphabetical, keys).iter().map(|k| k.index).collect();
    assert_eq!(by_name, vec![1, 2, 0]);
    let keys = vec![root_key(0, &x), root_key(1, &y), root_key(2, &z)];
    let by_size: Vec<usize> = sort_keys(GraphSort::InstalledSize, keys).iter().map(|k| k.index).collect();
    assert_eq!(by_size, vec![2, 0, 1]);
}

fn pos(t: &DependencyTree, id: &str) -> usize {
    t.find(id).unwrap()
}

#[test]
fn graph_plan_depth_one() {
    let t = tree();
    let plan = plan_graph(&t, GraphFilter::All, GraphSort::Alphabetical, 1, usize::MAX, None);
    let roots: Vec<&str> = plan.roots.iter().map(|&i| t.id(i).as_str()).collect();
    assert_eq!(roots, vec!["pacman:app", "pacman:lonely", "aur:other"]);
    assert!(plan.nodes[pos(&t, "pacman:libfoo")]);
    assert!(plan.nodes[pos(&t, "pacman:libbar")]);
    assert!(!plan.nodes[pos(&t, "pacman:glibc")]);
    assert_eq!(plan.parent[pos(&t, "pacman:libfoo")], Some(pos(&t, "pacman:app")));
    assert_eq!(plan.parent[pos(&t, "pacman:libbar")], Some(pos(&t, "aur:other")));
    assert_eq!(plan.children[pos(&t, "pacman:app")], vec![pos(&t, "pacman:libfoo")]);
    assert_eq!(plan.edges.len(), 3);
    assert!(plan.no_dep[pos(&t, "pacman:lonely")]);
    assert!(!plan.no_dep[pos(&t, "pacman:app")]);
}

#[test]
fn graph_plan_deeper_and_filtered() {
    let t = tree();
    let plan = plan_graph(&t, GraphFilter::All, GraphSort::InstalledSize, 2, usize::MAX, None);
    let roots: Vec<&str> = plan.roots.iter().map(|&i| t.id(i).as_str()).collect();
    assert_eq!(roots, vec!["pacman:app", "aur:other", "pacman:lonely"]);
    assert!(plan.nodes[pos(&t, "pacman:glibc")]);
    // Equal dependency counts: the smaller id wins.
    assert_eq!(plan.parent[pos(&t, "pacman:glibc")], Some(pos(&t, "pacman:libbar")));
    assert_eq!(plan.edges.len(), 5);
    let aur = plan_graph(&t, GraphFilter::Aur, GraphSort::Alphabetical, 0, usize::MAX, None);
    assert_eq!(aur.roots, vec![pos(&t, "aur:other")]);
    assert!(!aur.nodes[pos(&t, "pacman:libbar")]);
    let shared = plan_graph(&t, GraphFilter::All, GraphSort::Alphabetical, 1, 1, None);
    assert!(!shared.nodes[pos(&t, "pacman:libbar")]);
    assert!(shared.nodes[pos(&t, "pacman:libfoo")]);
    let games = plan_graph(&t, GraphFilter::All, GraphSort::Alphabetical, 3, usize::MAX, Some("Game"));
    assert!(games.roots.is_empty());
}

#[test]
fn timestamps_as_dates() {
    assert_eq!(format_timestamp(1740671112), "2025-02-27");
    assert_eq!(format_timestamp(0), "1970-01-01");
    assert_eq!(format_timestamp(951782400), "2000-02-29");
    assert_eq!(format_timestamp(951868800), "2000-03-01");
    assert_eq!(format_timestamp(-1), "1969-12-31");
    assert_eq!(format_timestamp(-86400), "1969-12-31");
    assert_eq!(format_timestamp(-86401), "1969-12-30");
    assert_eq!(format_timestamp(-31536000), "1969-01-01");
    assert_eq!(format_timestamp(-951868800), "1939-11-03");
    assert_eq!(format_timestamp(-62135596800), "0001-01-01");
    assert_eq!(format_timestamp(-62167219200), "0000-01-01");
    assert_eq!(format_timestamp(-62167219201), "-001-12-31");
}

#[test]
fn search_lower_cases_both_sides() {
    let mut t = tree();
    assert!(search_matches(&t, "").is_empty());
    assert_eq!(search_matches(&t, "LIB"), vec!["pacman:libfoo", "pacman:libbar", "pacman:glibc"]);
    t.mark_protected(&vec![]);
    assert_eq!(search_matches(&t, "Oth"), vec!["aur:other"]);
}

#[test]
fn selection_toggles_and_previews_orphans() {
    let t = tree();
    let mut s = Selection::new();
    s.toggle(&t, "pacman:app");
    assert_eq!(s.selected(), &vec!["pacman:app".to_string()]);
    assert!(s.is_selected("pacman:app"));
    assert!(s.is_orphan("pacman:libfoo"));
    assert!(!s.is_orphan("pacman:libbar"));
    s.toggle(&t, "aur:other");
    assert!(s.is_orphan("pacman:libbar"));
    s.toggle(&t, "aur:other");
    s.toggle(&t, "pacman:app");
    assert!(s.selected().is_empty());
    assert!(s.orphans().is_empty());
    let mut p = tree();
    p.mark_protected(&vec!["app".to_string()]);
    let mut s2 = Selection::new();
    s2.toggle(&p, "pacman:app");
    assert!(s2.selected().is_empty());
}

#[test]
fn toolbar_texts() {
    assert_eq!(depth_label(0), "Depth: 0 (apps only)");
    assert_eq!(depth_label(10), "Depth: 10 (all)");
    assert_eq!(depth_label(3), "Depth: 3");
    assert_eq!(max_shared(50), (usize::MAX, "Max Shared: all".to_string()));
    assert_eq!(max_shared(7), (7, "Max Shared: 7".to_string()));
    assert_eq!(count_label(42), "42 packages");
    assert_eq!(category_filter(0), None);
    assert_eq!(category_filter(1), Some("Audio/Video"));
    assert_eq!(category_filter(12), Some("Other"));
}

#[test]
fn drawing_decisions() {
    assert_eq!(edge_style(true, true, true, true, true), EdgeStyle::Selected);
    assert_eq!(edge_style(true, false, true, false, true), EdgeStyle::Match);
    assert_eq!(edge_style(true, false, false, true, true), EdgeStyle::Normal);
    let base = NodeState { selected: false, orphan: false, hovered: false, searching: false, in_matches: false, explicit: true, protected: false, has_category: true };
    assert_eq!(node_fill(base), NodeFill::Category);
    assert_eq!(node_fill(NodeState { searching: true, ..base }), NodeFill::Dimmed);
    assert_eq!(node_fill(NodeState { searching: true, in_matches: true, ..base }), NodeFill::Match);
    assert_eq!(node_fill(NodeState { orphan: true, hovered: true, ..base }), NodeFill::Orphan);
    assert_eq!(node_border(NodeState { protected: true, selected: true, ..base }), NodeBorder::Protected);
    assert_eq!(node_border(NodeState { explicit: false, ..base }), NodeBorder::Dependency);
    assert_eq!(label_tone(NodeState { searching: true, selected: true, ..base }), LabelTone::Dimmed);
    assert_eq!(label_tone(NodeState { selected: true, ..base }), LabelTone::Selected);
}

#[test]
fn package_texts() {
    let mut p = pkg("code", PackageSource::Aur, true, &["a", "b"], 512);
    assert_eq!(title_text(&p), "code 1.0");
    assert_eq!(technical_name(&p), None);
    p.display_name = "Visual Studio Code".to_string();
    assert_eq!(title_text(&p), "Visual Studio Code 1.0");
    assert_eq!(technical_name(&p), Some("code".to_string()));
    assert_eq!(info_text(&p), "AUR | 512 B | Deps: 2 | Required by: 0");
    assert_eq!(installed_text(&p), None);
    p.install_date = Some(1740671112);
    assert_eq!(installed_text(&p), Some("Installed: 2025-02-27".to_string()));
    assert_eq!(description_line(&p), None);
    p.description = "First line\nSecond".to_string();
    assert_eq!(description_line(&p), Some("First line".to_string()));
    assert_eq!(source_size_text(&p), "Source: AUR | Size: 512 B");
    assert_eq!(categories_text(&p), None);
    p.categories = strings(&["Development", "IDE"]);
    assert_eq!(categories_text(&p), Some("Categories: Development, IDE".to_string()));
}

#[test]
fn related_lists_are_cut_after_ten() {
    assert_eq!(related_text("Depends on: ", &vec![]), None);
    assert_eq!(related_text("Depends on: ", &strings(&["a", "b"])), Some("Depends on: a, b".to_string()));
    let many: Vec<String> = (0..12).map(|i| format!("p{i}")).collect();
    assert_eq!(
        related_text("Required by: ", &many),
        Some("Required by: p0, p1, p2, p3, p4, p5, p6, p7, p8, p9 (+2 more)".to_string())
    );
    let t = tree();
    let names = package_names(&t.children_of("pacman:app"));
    assert_eq!(names.len(), 2);
}

fn item(id: &str, category: &'static str, size: u64, command: &str, checked: bool) -> MaintenanceItem {
    MaintenanceItem { id: id.to_string(), category, label: format!("{id} label"), size, command: command.to_string(), checked }
}

#[test]
fn maintenance_page_decisions() {
    let items = vec![
        item("a", "Package manager caches", 10, "pkexec paccache -rk2", true),
        item("b", "Package manager caches", 20, "flatpak uninstall --unused -y", false),
        item("c", "System cruft", 30, "rm -rf '/h/.cache/thumbnails'/*", true),
        item("d", "System cruft", 40, "", true),
    ];
    assert_eq!(group_headings(&items), vec![true, false, true, false]);
    assert_eq!(total_size(&items), Some(100));
    assert_eq!(total_size(&vec![item("x", "c", u64::MAX, "", false), item("y", "c", 1, "", false)]), None);
    assert_eq!(checked(&items).len(), 3);
    assert_eq!(scan_status(4, 100), "4 items found | 100 B reclaimable");
    assert_eq!(clean_button_label(0, 0), "Clean Selected");
    assert_eq!(clean_button_label(2, 40), "Clean Selected (40 B)");
    assert_eq!(cleaning_status(3), "Cleaning 3 items...");
    let (root, user) = split_cleanups(&items);
    assert_eq!(root.len(), 1);
    assert_eq!(root[0].command, "paccache -rk2");
    assert_eq!(user.len(), 1);
    assert_eq!(user[0].label, "c label");
    let two = vec![
        item("a", "x", 1, "pkexec paccache -rk2", true),
        item("e", "x", 1, "pkexec journalctl --vacuum-time=1week", true),
    ];
    let (root2, _) = split_cleanups(&two);
    assert_eq!(root_script(&root2), "paccache -rk2 && echo __OK_0__\njournalctl --vacuum-time=1week && echo __OK_1__");
    let outs = root_outcomes(&root2, 1, "__OK_1__\n", "boom");
    assert!(!outs[0].success);
    assert_eq!(outs[0].error, "boom");
    assert!(outs[1].success);
    let denied = root_outcomes(&root2, 126, "", "");
    assert!(denied.iter().all(|o| !o.success && o.error == "Auth cancelled"));
    assert_eq!(clean_summary(&outs, 2), "Done: 1/2 succeeded, 1 failed");
    let ok = vec![Outcome { label: "a".into(), success: true, error: String::new() }];
    assert_eq!(clean_summary(&ok, 1), "Done: 1 items cleaned");
}

#[test]
fn window_decisions() {
    let t = tree();
    let sel = strings(&["aur:other", "nope", "pacman:app"]);
    let pkgs = removal_packages(&t, &sel);
    let names: Vec<&str> = pkgs.iter().map(|p| p.name.as_str()).collect();
    assert_eq!(names, vec!["other", "app"]);
    assert_eq!(checked_size_sum(&pkgs), Some(500));
    let plan = removal_plan(&t, &sel).unwrap();
    assert_eq!(plan.total_packages(), 2);
    assert_eq!(checked_selected_size(&t, &sel), Some(500));
    assert_eq!(remove_button_label(2), "Remove (2)");
    assert_eq!(selection_status(0, 0), "Ready");
    assert_eq!(selection_status(2, 500), "Selected: 2 packages | Total: 500 B freed");
    assert_eq!(confirm_heading(2), "Remove 2 package(s)?");
    assert_eq!(confirm_body(500), "This will free approximately 500 B.");
    let p = RemovalPlan::from_packages(vec![pkg("a", PackageSource::Pacman, true, &[], 10)]);
    assert_eq!(confirm_details(&p), "[Pacman] 1 package(s):\n  - a 10 B\n\nTotal: 1 packages, 10 B freed");
    assert_eq!(removal_status(true), "Removal complete. Re-scanning...");
    assert_eq!(removal_status(false), "Removal finished with errors");
    assert_eq!(progress_complete_text(true), "Removal complete");
}

#[test]
fn removal_log_lines() {
    let cmd = RemovalCommand {
        source: PackageSource::Pacman,
        display: "pkexec pacman -Rns --noconfirm a b".to_string(),
        program: "pkexec".to_string(),
        args: strings(&["pacman", "-Rns", "--noconfirm", "a", "b"]),
        packages: strings(&["a", "b"]),
    };
    let (h1, h2) = command_header(&cmd);
    assert_eq!(h1, ">>> [Pacman] Removing: a, b");
    assert_eq!(h2, "$ pkexec pacman -Rns --noconfirm a b");
    let mut log = Vec::new();
    let ok = log_command_end(&mut log, "removing a\nremoving b\n", "warn\n", &CommandEnd::Exited { success: true, status: "exit status: 0".into() });
    assert!(ok);
    assert_eq!(log, strings(&["removing a", "removing b", "STDERR: warn", "OK", ""]));
    let mut log2 = Vec::new();
    let bad = log_command_end(&mut log2, "", "", &CommandEnd::Exited { success: false, status: "exit status: 1".into() });
    assert!(!bad);
    assert_eq!(log2, strings(&["ERROR: Command exited with status exit status: 1", ""]));
    let mut log3 = Vec::new();
    assert!(!log_command_end(&mut log3, "", "", &CommandEnd::NotStarted { error: "not found".into() }));
    assert_eq!(log3, strings(&["ERROR: Failed to execute: not found", ""]));
}

#[test]
fn install_date_is_shown_as_the_day_read() {
    let read = sysclean::scanner::pacman::parse_install_date("Fri 29 Feb 2008 11:59:59 PM UTC").unwrap();
    assert_eq!(format_timestamp(read), "2008-02-29");
    let read = sysclean::scanner::pacman::parse_install_date("Wed 31 Dec 1975 12:00:00 AM UTC").unwrap();
    assert_eq!(format_timestamp(read), "1975-12-31");
    let read = sysclean::scanner::pacman::parse_install_date("Fri 31 Dec 9999 11:59:59 PM UTC").unwrap();
    assert_eq!(format_timestamp(read), "9999-12-31");
    let read = sysclean::scanner::pacman::parse_install_date("Thu 01 Jan 1970 12:00:00 AM UTC").unwrap();
    assert_eq!(format_timestamp(read), "1970-01-01");
}

#[test]
fn removal_plan_groups_the_selection_and_refuses_overflowing_sizes() {
    let t = tree();
    let plan = removal_plan(&t, &strings(&["pacman:app", "aur:other", "pacman:libfoo"])).unwrap();
    assert_eq!(plan.total_size, 510);
    let groups: Vec<(PackageSource, Vec<&str>)> = plan
        .groups
        .iter()
        .map(|(s, ps)| (*s, ps.iter().map(|p| p.name.as_str()).collect()))
        .collect();
    assert_eq!(groups, vec![(PackageSource::Pacman, vec!["app", "libfoo"]), (PackageSource::Aur, vec!["other"])]);
    let huge = DependencyTree::build(vec![
        pkg("a", PackageSource::Pacman, true, &[], u64::MAX),
        pkg("b", PackageSource::Pacman, true, &[], 1),
    ]);
    assert!(removal_plan(&huge, &strings(&["pacman:a", "pacman:b"])).is_none());
    assert!(removal_plan(&huge, &strings(&["pacman:a"])).is_some());
}

#[test]
fn a_protected_package_never_enters_the_selection() {
    let mut t = tree();
    t.mark_protected(&vec!["libfoo".to_string()]);
    let mut s = Selection::new();
    s.toggle(&t, "pacman:libfoo");
    s.toggle(&t, "pacman:app");
    s.toggle(&t, "pacman:libfoo");
    assert_eq!(s.selected(), &vec!["pacman:app".to_string()]);
}

#[test]
fn graph_depth_zero_shows_roots_and_deeper_adds_nodes() {
    let t = tree();
    let flat = plan_graph(&t, GraphFilter::All, GraphSort::Alphabetical, 0, usize::MAX, None);
    for i in 0..t.package_count() {
        assert_eq!(flat.nodes[i], flat.roots.contains(&i));
    }
    let one = plan_graph(&t, GraphFilter::All, GraphSort::Alphabetical, 1, 1, None);
    let deep = plan_graph(&t, GraphFilter::All, GraphSort::Alphabetical, 3, usize::MAX, None);
    for i in 0..t.package_count() {
        assert!(!flat.nodes[i] || one.nodes[i]);
        assert!(!one.nodes[i] || deep.nodes[i]);
    }
    assert!(deep.nodes.iter().filter(|&&n| n).count() > one.nodes.iter().filter(|&&n| n).count());
}

#[test]
fn built_graph_links_dependents_back() {
    let t = tree();
    for y in 0..t.package_count() {
        for &x in t.forward(y) {
            assert!(t.reverse(x).contains(&y));
        }
    }
}

#[test]
fn checked_size_adds_only_checked_items() {
    let items = vec![
        item("a", "X", 10, "rm a", true),
        item("b", "X", 20, "rm b", false),
        item("c", "Y", 30, "pkexec rm c", true),
    ];
    assert_eq!(checked_size(&items), Some(40));
    let full = vec![item("a", "X", u64::MAX, "", true), item("b", "X", 1, "", true)];
    assert_eq!(checked_size(&full), None);
    let partly = vec![item("a", "X", u64::MAX, "", true), item("b", "X", 1, "", false)];
    assert_eq!(checked_size(&partly), Some(u64::MAX));
}

#[test]
fn every_sort_order_is_a_stable_sort() {
    let mut a = pkg("zeta", PackageSource::Pacman, true, &["x"], 5);
    a.categories = strings(&["Game"]);
    a.install_date = Some(100);
    let mut b = pkg("alpha", PackageSource::Pacman, true, &["x", "y"], 5);
    b.categories = strings(&["Game"]);
    let mut c = pkg("mid", PackageSource::Aur, true, &[], 7);
    c.categories = strings(&["Network"]);
    c.install_date = Some(200);
    let d = pkg("beta", PackageSource::Pacman, true, &["x"], 1);
    let keys = || vec![root_key(0, &a), root_key(1, &b), root_key(2, &c), root_key(3, &d)];
    let order = |s: GraphSort| -> Vec<usize> { sort_keys(s, keys()).iter().map(|k| k.index).collect() };
    assert_eq!(order(GraphSort::Alphabetical), vec![1, 3, 2, 0]);
    assert_eq!(order(GraphSort::InstallDate), vec![2, 0, 1, 3]);
    assert_eq!(order(GraphSort::InstalledSize), vec![2, 0, 1, 3]);
    assert_eq!(order(GraphSort::DependencyCount), vec![1, 0, 3, 2]);
    assert_eq!(order(GraphSort::Category), vec![3, 1, 0, 2]);
}
