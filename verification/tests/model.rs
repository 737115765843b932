use sysclean::model::dep_tree::DependencyTree;
use sysclean::model::package::PackageInfo;
use sysclean::model::package_source::PackageSource;
use sysclean::model::removal_plan::RemovalPlan;

fn pkg(name: &str, source: PackageSource, explicit: bool, depends: &[&str], required_by: &[&str], size: u64) -> PackageInfo {
    PackageInfo {
        id: String::new(),
        name: name.to_string(),
        display_name: String::new(),
        version: "1.0".to_string(),
        description: String::new(),
        categories: Vec::new(),
        icon_name: None,
        source,
        installed_size: size,
        depends: depends.iter().map(|s| s.to_string()).collect(),
        required_by: required_by.iter().map(|s| s.to_string()).collect(),
        provides: Vec::new(),
        is_explicit: explicit,
        is_protected: false,
        install_path: None,
        install_date: None,
    }
}

#[test]
fn source_labels_icons_prefixes() {
    assert_eq!(PackageSource::Pacman.label(), "Pacman");
    assert_eq!(PackageSource::Aur.label(), "AUR");
    assert_eq!(PackageSource::Pip.label(), "pip");
    assert_eq!(PackageSource::Aur.prefix(), "aur");
    assert_eq!(PackageSource::AppImage.prefix(), "appimage");
    assert_eq!(PackageSource::Flatpak.icon_name(), "system-software-install-symbolic");
    assert_eq!(PackageSource::Desktop.icon_name(), "application-x-desktop-symbolic");
    assert_eq!(PackageSource::Npm.icon_name(), "utilities-terminal-symbolic");
}

#[test]
fn qualified_id_is_prefix_colon_name() {
    let p = pkg("firefox", PackageSource::Pacman, true, &[], &[], 0);
    assert_eq!(p.qualified_id(), "pacman:firefox");
    let q = pkg("org.gimp.GIMP", PackageSource::Flatpak, true, &[], &[], 0);
    assert_eq!(q.qualified_id(), "flatpak:org.gimp.GIMP");
}

#[test]
fn display_label_falls_back_to_name() {
    let mut p = pkg("firefox", PackageSource::Pacman, true, &[], &[], 0);
    assert_eq!(p.display_label(), "firefox");
    p.display_name = "Firefox".to_string();
    assert_eq!(p.display_label(), "Firefox");
}

fn sample_tree() -> DependencyTree {
    DependencyTree::build(vec![
        pkg("app", PackageSource::Pacman, true, &["libfoo", "libbar"], &[], 100),
        pkg("libfoo", PackageSource::Pacman, false, &["glibc"], &["app"], 10),
        pkg("libbar", PackageSource::Pacman, false, &["glibc"], &["app", "other"], 20),
        pkg("other", PackageSource::Aur, true, &["libbar"], &[], 5),
        pkg("glibc", PackageSource::Pacman, false, &[], &["libfoo", "libbar"], 50),
    ])
}

#[test]
fn tree_indexes_packages_by_qualified_id() {
    let t = sample_tree();
    assert_eq!(t.package_count(), 5);
    assert_eq!(t.get("pacman:app").map(|p| p.name.as_str()), Some("app"));
    assert_eq!(t.get("aur:other").map(|p| p.installed_size), Some(5));
    assert!(t.get("pacman:missing").is_none());
}

#[test]
fn tree_later_package_replaces_earlier_with_same_id() {
    let t = DependencyTree::build(vec![
        pkg("dup", PackageSource::Pacman, true, &[], &[], 1),
        pkg("dup", PackageSource::Pacman, true, &[], &[], 2),
    ]);
    assert_eq!(t.package_count(), 1);
    assert_eq!(t.get("pacman:dup").map(|p| p.installed_size), Some(2));
}

#[test]
fn tree_children_and_parents() {
    let t = sample_tree();
    let mut kids: Vec<&str> = t.children_of("pacman:app").iter().map(|p| p.name.as_str()).collect();
    kids.sort();
    assert_eq!(kids, vec!["libbar", "libfoo"]);
    let mut parents: Vec<&str> = t.parents_of("pacman:libbar").iter().map(|p| p.name.as_str()).collect();
    parents.sort();
    assert_eq!(parents, vec!["app", "other"]);
    assert!(t.children_of("pacman:nope").is_empty());
}

#[test]
fn tree_roots_are_explicit_packages() {
    let t = sample_tree();
    let mut roots: Vec<&str> = t.root_packages().iter().map(|p| p.name.as_str()).collect();
    roots.sort();
    assert_eq!(roots, vec!["app", "other"]);
}

#[test]
fn removal_branch_adds_orphaned_dependencies() {
    let t = sample_tree();
    let mut branch = t.compute_removal_branch(&vec!["pacman:app".to_string()]);
    branch.sort();
    // libbar is still needed by `other`; glibc by libbar.
    assert_eq!(branch, vec!["pacman:app".to_string(), "pacman:libfoo".to_string()]);
    let mut both = t.compute_removal_branch(&vec!["pacman:app".to_string(), "aur:other".to_string()]);
    both.sort();
    assert!(both.contains(&"pacman:libbar".to_string()));
    assert!(both.contains(&"pacman:libfoo".to_string()));
}

#[test]
fn removal_branch_never_adds_explicit_packages() {
    let t = DependencyTree::build(vec![
        pkg("a", PackageSource::Pacman, true, &["b"], &[], 1),
        pkg("b", PackageSource::Pacman, true, &[], &["a"], 1),
    ]);
    assert_eq!(t.compute_removal_branch(&vec!["pacman:a".to_string()]), vec!["pacman:a".to_string()]);
}

#[test]
fn total_size_counts_each_selected_package_once() {
    let t = sample_tree();
    let ids = vec!["pacman:app".to_string(), "pacman:libfoo".to_string(), "pacman:app".to_string(), "x:y".to_string()];
    assert_eq!(t.total_size(&ids), 110);
}

#[test]
fn mark_protected_sets_only_named_packages() {
    let mut t = sample_tree();
    t.mark_protected(&vec!["glibc".to_string(), "nothing".to_string()]);
    assert!(t.get("pacman:glibc").unwrap().is_protected);
    assert!(!t.get("pacman:app").unwrap().is_protected);
    assert_eq!(t.package_count(), 5);
}

#[test]
fn dependency_maps_have_one_entry_per_package() {
    let t = sample_tree();
    let fwd = t.depends_on_map();
    assert_eq!(fwd.len(), 5);
    let app = fwd.iter().find(|(id, _)| id == "pacman:app").unwrap();
    let mut deps = app.1.clone();
    deps.sort();
    assert_eq!(deps, vec!["pacman:libbar".to_string(), "pacman:libfoo".to_string()]);
    let rev = t.depended_by_map();
    let glibc = rev.iter().find(|(id, _)| id == "pacman:glibc").unwrap();
    assert_eq!(glibc.1.len(), 2);
}

#[test]
fn plan_groups_by_source_in_order() {
    let plan = RemovalPlan::from_packages(vec![
        pkg("a", PackageSource::Pacman, true, &[], &[], 10),
        pkg("f", PackageSource::Flatpak, true, &[], &[], 20),
        pkg("b", PackageSource::Aur, true, &[], &[], 30),
        pkg("c", PackageSource::Pacman, true, &[], &[], 40),
    ]);
    assert_eq!(plan.total_size, 100);
    assert_eq!(plan.total_packages(), 4);
    assert_eq!(plan.groups.len(), 3);
    assert_eq!(plan.groups[0].0, PackageSource::Pacman);
    let names: Vec<&str> = plan.groups[0].1.iter().map(|p| p.name.as_str()).collect();
    assert_eq!(names, vec!["a", "c"]);
}

#[test]
fn plan_commands_per_source() {
    let mut app_img = pkg("tool", PackageSource::AppImage, true, &[], &[], 1);
    app_img.install_path = Some("/opt/tool.AppImage".to_string());
    let mut user_img = pkg("mine", PackageSource::AppImage, true, &[], &[], 1);
    user_img.install_path = Some("/home/u/mine.AppImage".to_string());
    let plan = RemovalPlan::from_packages(vec![
        pkg("a", PackageSource::Pacman, true, &[], &[], 1),
        pkg("b", PackageSource::Pacman, true, &[], &[], 1),
        pkg("org.x.Y", PackageSource::Flatpak, true, &[], &[], 1),
        app_img,
        user_img,
    ]);
    let cmds = plan.commands();
    assert_eq!(cmds.len(), 4);
    assert_eq!(cmds[0].display, "pkexec pacman -Rns --noconfirm a b");
    assert_eq!(cmds[0].program, "pkexec");
    assert_eq!(cmds[0].args, vec!["pacman", "-Rns", "--noconfirm", "a", "b"]);
    assert_eq!(cmds[1].display, "flatpak uninstall -y org.x.Y");
    assert_eq!(cmds[1].args, vec!["uninstall", "-y", "org.x.Y"]);
    assert_eq!(cmds[2].display, "pkexec rm -rf /opt/tool.AppImage");
    assert_eq!(cmds[2].packages, vec!["tool"]);
    assert_eq!(cmds[3].display, "rm -rf /home/u/mine.AppImage");
    assert_eq!(cmds[3].program, "rm");
    assert_eq!(cmds[3].args, vec!["-rf", "/home/u/mine.AppImage"]);
}

#[test]
fn plan_summary_lines() {
    let plan = RemovalPlan::from_packages(vec![
        pkg("a", PackageSource::Pacman, true, &[], &[], 10),
        pkg("b", PackageSource::Pacman, true, &[], &[], 20),
    ]);
    let lines = plan.summary_lines();
    assert_eq!(lines, vec![
        "[Pacman] 2 package(s):".to_string(),
        "  - a 10 B".to_string(),
        "  - b 20 B".to_string(),
        "\nTotal: 2 packages, 30 B freed".to_string(),
    ]);
}

#[test]
fn removal_branch_follows_orphans_to_the_end_in_any_order() {
    let t = sample_tree();
    let all = vec![
        "aur:other".to_string(),
        "pacman:app".to_string(),
        "pacman:glibc".to_string(),
        "pacman:libbar".to_string(),
        "pacman:libfoo".to_string(),
    ];
    let mut one = t.compute_removal_branch(&vec!["pacman:app".to_string(), "aur:other".to_string()]);
    one.sort();
    assert_eq!(one, all);
    let mut two = t.compute_removal_branch(&vec!["aur:other".to_string(), "pacman:app".to_string()]);
    two.sort();
    assert_eq!(two, all);
}

#[test]
fn every_command_shows_the_line_it_runs() {
    let mut wine = pkg("game", PackageSource::Wine, true, &[], &[], 1);
    wine.install_path = Some("/usr/games/game".to_string());
    let plan = RemovalPlan::from_packages(vec![
        pkg("pyx", PackageSource::Pip, true, &[], &[], 1),
        pkg("left-pad", PackageSource::Npm, true, &[], &[], 1),
        pkg("ripgrep", PackageSource::Cargo, true, &[], &[], 1),
        pkg("hello", PackageSource::Snap, true, &[], &[], 1),
        pkg("yay", PackageSource::Aur, true, &[], &[], 1),
        wine,
    ]);
    let cmds = plan.commands();
    assert_eq!(cmds.len(), 6);
    for c in &cmds {
        let mut line = vec![c.program.clone()];
        line.extend(c.args.iter().cloned());
        assert_eq!(c.display, line.join(" "));
    }
}

#[test]
fn every_prefix_is_the_label_in_lower_case() {
    let all = [
        PackageSource::Pacman,
        PackageSource::Aur,
        PackageSource::Flatpak,
        PackageSource::Snap,
        PackageSource::AppImage,
        PackageSource::Wine,
        PackageSource::Pip,
        PackageSource::Npm,
        PackageSource::Cargo,
        PackageSource::Desktop,
    ];
    for s in all.iter() {
        assert_eq!(s.prefix(), s.label().to_ascii_lowercase());
    }
}

#[test]
fn removal_branch_grows_with_the_selection() {
    let t = sample_tree();
    let small = t.compute_removal_branch(&vec!["pacman:app".to_string()]);
    let big = t.compute_removal_branch(&vec!["pacman:app".to_string(), "aur:other".to_string()]);
    for id in small.iter() {
        assert!(big.contains(id));
    }
    assert!(big.len() > small.len());
}
