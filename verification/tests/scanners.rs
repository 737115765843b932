use sysclean::scanner::desktop_entries::enrichment_dirs;
use sysclean::model::package_source::PackageSource;
use sysclean::scanner::appimage::{appimage_name, appimage_to_package, has_appimage_extension, has_appimage_magic, search_dirs};
use sysclean::scanner::flatpak::{flatpak_package, parse_flatpak_list, parse_flatpak_size};
use sysclean::scanner::ScanError;

#[test]
fn flatpak_size_splits_number_and_unit() {
    assert_eq!(parse_flatpak_size("842.3 MB"), Some(("842.3".to_string(), 1_000_000)));
    assert_eq!(parse_flatpak_size("1.2 GB"), Some(("1.2".to_string(), 1_000_000_000)));
    assert_eq!(parse_flatpak_size("12 kB"), Some(("12".to_string(), 1000)));
    assert_eq!(parse_flatpak_size("12 KB"), Some(("12".to_string(), 1000)));
    assert_eq!(parse_flatpak_size("3 TB"), Some(("3".to_string(), 0)));
    assert_eq!(parse_flatpak_size("0"), None);
    assert_eq!(parse_flatpak_size("1 2 3"), None);
}

#[test]
fn flatpak_list_reads_columns() {
    let out = "org.gimp.GIMP\tGNU Image Manipulation Program\t2.10.38\t842.3 MB\nbroken\norg.x.Y\tY\n";
    let rows = parse_flatpak_list(out);
    assert_eq!(rows.len(), 2);
    assert_eq!(rows[0].app_id, "org.gimp.GIMP");
    assert_eq!(rows[0].name, "GNU Image Manipulation Program");
    assert_eq!(rows[0].version, "2.10.38");
    assert_eq!(rows[0].size_text, "842.3 MB");
    assert_eq!(rows[1].version, "");
    assert_eq!(rows[1].size_text, "0");
}

#[test]
fn flatpak_package_is_explicit_and_prefixed() {
    let rows = parse_flatpak_list("org.x.Y\tY App\t1.0\t1 MB");
    let row = rows.into_iter().next().unwrap();
    let p = flatpak_package(row, 1000);
    assert_eq!(p.id, "flatpak:org.x.Y");
    assert_eq!(p.name, "org.x.Y");
    assert_eq!(p.display_name, "Y App");
    assert_eq!(p.source, PackageSource::Flatpak);
    assert!(p.is_explicit);
    assert_eq!(p.installed_size, 1000);
}

#[test]
fn appimage_name_drops_extension_and_version() {
    assert_eq!(appimage_name("Obsidian-1.5.3.AppImage"), "Obsidian");
    assert_eq!(appimage_name("tool.appimage"), "tool");
    assert_eq!(appimage_name("plain"), "plain");
}

#[test]
fn appimage_extension_ignores_case() {
    assert!(has_appimage_extension("/opt/Obsidian-1.5.3.AppImage"));
    assert!(has_appimage_extension("/opt/x.APPIMAGE"));
    assert!(!has_appimage_extension("/opt/x.tar.gz"));
    assert!(!has_appimage_extension("/opt/x"));
}

#[test]
fn appimage_magic_needs_elf_and_marker() {
    let mut data = vec![0x7f, b'E', b'L', b'F', 2, 1, 1, 0, b'A', b'I', 2, 0];
    assert!(has_appimage_magic(&data));
    data[9] = b'X';
    assert!(!has_appimage_magic(&data));
    assert!(!has_appimage_magic(&[0x7f, b'E', b'L', b'F', 2, 1, 1, 0, b'A', b'I', 2]));
}

#[test]
fn appimage_package_from_path() {
    let p = appimage_to_package("/home/u/Applications/Obsidian-1.5.3.AppImage", 123).unwrap();
    assert_eq!(p.name, "Obsidian");
    assert_eq!(p.id, "appimage:Obsidian");
    assert_eq!(p.description, "AppImage at /home/u/Applications/Obsidian-1.5.3.AppImage");
    assert_eq!(p.install_path.as_deref(), Some("/home/u/Applications/Obsidian-1.5.3.AppImage"));
    assert_eq!(p.installed_size, 123);
    assert!(appimage_to_package("/", 0).is_none());
}

#[test]
fn appimage_search_dirs_follow_home() {
    assert_eq!(search_dirs(None), vec!["/opt".to_string()]);
    assert_eq!(
        search_dirs(Some("/home/u")),
        vec!["/opt", "/home/u/Applications", "/home/u/bin", "/home/u/.local/bin"]
    );
    assert_eq!(search_dirs(Some("/home/u/"))[1], "/home/u/Applications");
}

#[test]
fn scan_error_text_names_source() {
    let e = ScanError { source: "pacman", message: "Failed to run pacman -Qi".to_string() };
    assert_eq!(e.text(), "[pacman] Failed to run pacman -Qi");
}

use sysclean::model::package::PackageInfo;
use sysclean::scanner::appimage::AppImageScanner;
use sysclean::scanner::desktop_entries::{build_exec_index, enrich_packages, exec_binary, parse_desktop_file, DesktopEntry};
use sysclean::scanner::desktop_file::parse_desktop_content;
use sysclean::scanner::desktop_scanner::{desktop_dirs, desktop_package, DesktopEntryScanner};
use sysclean::scanner::flatpak::FlatpakScanner;
use sysclean::scanner::maintenance::{
    classify_dir, depth_searched, docker_size_text, flatpak_unused_parts, get_paccache_uninstalled_size,
    is_rust_target, journal_size_candidates, maintenance_items, orphan_names, orphan_size_parts,
    parse_docker_size, parse_pacman_size, DirVisit, DiskUsage,
};
use sysclean::scanner::registry::{
    complete_text, done_texts, finish_scan, scanner_sources, source_counts, starting_text, total_steps, ScanNotice, ScanRun,
};

const DESKTOP: &str = "[Desktop Entry]\n\
Type=Application\n\
Name = Visual Studio Code \n\
Comment=Code Editing. Redefined.\n\
Icon=vscode\n\
Exec=/usr/bin/code --unity-launch %F\n\
Categories=Utility; TextEditor ;Development;IDE;;\n\
\n\
[Desktop Action new-window]\n\
Name=New Window\n\
Exec=/usr/bin/code --new-window %F\n";

fn pkg(name: &str, source: PackageSource) -> PackageInfo {
    PackageInfo {
        id: String::new(),
        name: name.to_string(),
        display_name: String::new(),
        version: String::new(),
        description: String::new(),
        categories: Vec::new(),
        icon_name: None,
        source,
        installed_size: 0,
        depends: Vec::new(),
        required_by: Vec::new(),
        provides: Vec::new(),
        is_explicit: true,
        is_protected: false,
        install_path: None,
        install_date: None,
    }
}

#[test]
fn scanners_name_themselves() {
    assert_eq!(FlatpakScanner.label(), "Flatpak");
    assert_eq!(FlatpakScanner.source(), PackageSource::Flatpak);
    assert_eq!(AppImageScanner.label(), "AppImage");
    assert_eq!(AppImageScanner.source(), PackageSource::AppImage);
    let d = DesktopEntryScanner::new(&vec![]);
    assert_eq!(d.label(), "Desktop entries");
    assert_eq!(d.source(), PackageSource::Desktop);
}

#[test]
fn desktop_file_reads_only_the_entry_section() {
    let f = parse_desktop_content(DESKTOP);
    assert_eq!(f.name, "Visual Studio Code");
    assert_eq!(f.comment, "Code Editing. Redefined.");
    assert_eq!(f.icon.as_deref(), Some("vscode"));
    assert_eq!(f.exec_command, "/usr/bin/code --unity-launch %F");
    assert_eq!(f.categories, vec!["Utility", "TextEditor", "Development", "IDE"]);
    assert!(!f.no_display);
    assert_eq!(f.entry_type, "Application");
}

#[test]
fn desktop_file_hidden_or_nameless_is_skipped() {
    assert!(parse_desktop_file("x", "[Desktop Entry]\nName=X\nNoDisplay=true\n").is_none());
    assert!(parse_desktop_file("x", "[Desktop Entry]\nComment=none\n").is_none());
    assert!(parse_desktop_file("x", "Name=Outside\n").is_none());
    let (id, e) = parse_desktop_file("code", DESKTOP).unwrap();
    assert_eq!(id, "code");
    assert_eq!(e.name, "Visual Studio Code");
}

#[test]
fn exec_binary_is_program_name() {
    assert_eq!(exec_binary("/usr/bin/code --unity-launch %F"), "code");
    assert_eq!(exec_binary("  gimp-2.10 %U"), "gimp-2.10");
    assert_eq!(exec_binary(""), "");
    let e = DesktopEntry { name: "X".into(), comment: String::new(), icon: None, exec_command: "/opt/x/bin/xapp -a".into(), categories: vec![] };
    assert!(e.exec_matches_package("xapp"));
    assert!(!e.exec_matches_package("x"));
}

#[test]
fn enrichment_by_id_then_by_program() {
    let entries = vec![
        parse_desktop_file("firefox", "[Desktop Entry]\nName=Firefox\nComment=Browser\nIcon=firefox\nCategories=Network;WebBrowser;\nExec=firefox %u\n").unwrap(),
        parse_desktop_file("org.gnome.Foo", "[Desktop Entry]\nName=Foo Tool\nExec=/usr/bin/foo\n").unwrap(),
    ];
    let index = build_exec_index(&entries);
    assert_eq!(index.len(), 2);
    assert_eq!(index[1].0, "foo");
    let mut pkgs = vec![pkg("firefox", PackageSource::Pacman), pkg("foo", PackageSource::Pacman), pkg("bar", PackageSource::Pacman)];
    pkgs[0].description = "kept".to_string();
    enrich_packages(&mut pkgs, &entries);
    assert_eq!(pkgs[0].display_name, "Firefox");
    assert_eq!(pkgs[0].description, "kept");
    assert_eq!(pkgs[0].categories, vec!["Network", "WebBrowser"]);
    assert_eq!(pkgs[0].icon_name.as_deref(), Some("firefox"));
    assert_eq!(pkgs[1].display_name, "Foo Tool");
    assert_eq!(pkgs[2].display_name, "");
}

#[test]
fn desktop_scanner_skips_claimed_and_repeated_entries() {
    let mut known = pkg("code", PackageSource::Pacman);
    known.install_path = Some("/opt/Tools/GIMP.AppImage".to_string());
    let scanner = DesktopEntryScanner::new(&vec![known]);
    assert!(scanner.is_claimed("code", "", "x"));
    assert!(scanner.is_claimed("whatever", "gimp.appimage", "x"));
    assert!(scanner.is_claimed("com.visualstudio.Code", "", "x"));
    assert!(scanner.is_claimed("x", "", "pacman:code"));
    assert!(!scanner.is_claimed("reaper", "reaper", "REAPER"));
    let mut seen = Vec::new();
    let reaper = "[Desktop Entry]\nName=REAPER\nExec=/opt/REAPER/reaper %F\nCategories=Audio;\n";
    let c = scanner.parse_desktop_entry("cockos-reaper", reaper, &mut seen).unwrap();
    assert_eq!(c.name, "REAPER");
    assert_eq!(c.exec_path.as_deref(), Some("/opt/REAPER/reaper"));
    assert_eq!(seen, vec!["cockos-reaper"]);
    assert!(scanner.parse_desktop_entry("cockos-reaper", reaper, &mut seen).is_none());
    assert!(scanner.parse_desktop_entry("link", "[Desktop Entry]\nType=Link\nName=L\n", &mut seen).is_none());
    assert_eq!(seen.len(), 1);
    let p = desktop_package(c, Some("/opt/REAPER/reaper".to_string()), 42);
    assert_eq!(p.id, "");
    assert_eq!(p.name, "cockos-reaper");
    assert_eq!(p.display_name, "REAPER");
    assert_eq!(p.source, PackageSource::Desktop);
    assert!(p.is_explicit);
    assert_eq!(p.installed_size, 42);
    assert_eq!(desktop_dirs(Some("/home/u")), vec!["/usr/share/applications", "/home/u/.local/share/applications"]);
    assert_eq!(desktop_dirs(None), vec!["/usr/share/applications"]);
}

fn usage() -> DiskUsage {
    DiskUsage {
        pacman_cache: Some(1000),
        yay_cache: Some(0),
        debtap_cache: None,
        orphans: 0,
        flatpak_unused: 5,
        cargo_registry: Some(3),
        cargo_git: None,
        rust_targets: vec![("/h/Programs/a/target".to_string(), 7), ("/h/Programs/b/target".to_string(), 8)],
        npm_cache: None,
        pip_cache: None,
        go_installed: false,
        go_cache: Some(9),
        electron_caches: 0,
        tauri_cache: Some(1),
        temp_tauri: Some(2),
        coredumps: None,
        journal: 11,
        thumbnails: None,
        trash: Some(4),
        docker_installed: false,
        docker_reclaimable: 100,
    }
}

#[test]
fn maintenance_tasks_for_measured_usage() {
    let items = maintenance_items("/h", &usage());
    let ids: Vec<&str> = items.iter().map(|i| i.id.as_str()).collect();
    assert_eq!(ids, vec!["pacman-cache", "flatpak-unused", "cargo-cache", "rust-targets", "go-cache", "tauri-cache", "journal", "trash"]);
    assert!(items.iter().all(|i| i.size > 0 && !i.checked));
    assert_eq!(items[0].command, "pkexec paccache -rk2");
    assert_eq!(items[0].category, "Package manager caches");
    assert_eq!(items[2].command, "rm -rf '/h/.cargo/registry' '/h/.cargo/git'");
    assert_eq!(items[2].size, 3);
    assert_eq!(items[3].label, "Rust target/ dirs (2 projects)");
    assert_eq!(items[3].command, "rm -rf '/h/Programs/a/target' && rm -rf '/h/Programs/b/target'");
    assert_eq!(items[3].size, 15);
    assert_eq!(items[4].command, "rm -rf '/h/.cache/go-build'/*");
    assert_eq!(items[5].command, "rm -rf '/h/.cache/tauri' '/h/.cache/temp-tauri'");
    assert_eq!(items[5].size, 3);
    assert_eq!(items[7].command, "pkexec rm -rf '/h/.local/share/Trash'/*");
    assert_eq!(items[7].category, "System cruft");
}

#[test]
fn maintenance_go_and_docker_depend_on_tools() {
    let mut u = usage();
    u.go_installed = true;
    u.docker_installed = true;
    u.electron_caches = 6;
    let items = maintenance_items("/h", &u);
    let go = items.iter().find(|i| i.id == "go-cache").unwrap();
    assert_eq!(go.command, "go clean -cache");
    let docker = items.iter().find(|i| i.id == "docker-images").unwrap();
    assert_eq!(docker.size, 100);
    let el = items.iter().find(|i| i.id == "electron-cache").unwrap();
    assert_eq!(el.command, "find '/h/.config' -maxdepth 2 -name Cache -type d -exec rm -rf '{}' +");
    assert_eq!(get_paccache_uninstalled_size(), 0);
}

#[test]
fn measuring_output_is_read() {
    assert_eq!(parse_pacman_size("Installed Size  : 12.50 MiB"), Some(("12.50".to_string(), 1048576)));
    assert_eq!(parse_pacman_size("Installed Size  : 12.50 TiB"), None);
    assert_eq!(parse_pacman_size("Installed Size  : 12.50"), None);
    assert_eq!(parse_pacman_size("no colon"), None);
    assert_eq!(orphan_names("a\n\nb\n"), vec!["a", "b"]);
    assert_eq!(orphan_size_parts("Name : x\nInstalled Size  : 3.00 KiB\n"), vec![("3.00".to_string(), 1024)]);
    assert_eq!(
        flatpak_unused_parts("Size\n234.5 MB\n\n  1 GB\n7 X\nbad\n"),
        vec![("234.5".to_string(), 1_000_000), ("1".to_string(), 1_000_000_000), ("7".to_string(), 1)]
    );
    assert!(flatpak_unused_parts("").is_empty());
    assert_eq!(
        journal_size_candidates("Archived and active journals take up 371.2M in the file system."),
        vec![("371.2".to_string(), 1048576)]
    );
    assert_eq!(docker_size_text("381.2MB (100%)"), "381.2MB");
    assert_eq!(parse_docker_size("381.2MB"), Some(("381.2".to_string(), 1_000_000)));
    assert_eq!(parse_docker_size(" 1.5GB "), Some(("1.5".to_string(), 1_000_000_000)));
    assert_eq!(parse_docker_size("12kB"), Some(("12".to_string(), 1000)));
    assert_eq!(parse_docker_size("0B"), Some(("0".to_string(), 1)));
    assert_eq!(parse_docker_size("12"), None);
}

#[test]
fn target_search_rules() {
    assert!(matches!(classify_dir("target"), DirVisit::Target));
    assert!(matches!(classify_dir(".git"), DirVisit::Skip));
    assert!(matches!(classify_dir("node_modules"), DirVisit::Skip));
    assert!(matches!(classify_dir("src"), DirVisit::Descend));
    assert!(depth_searched(4));
    assert!(!depth_searched(5));
    assert!(is_rust_target(false, true, false));
    assert!(!is_rust_target(false, false, false));
}

#[test]
fn registry_counts_and_texts() {
    assert_eq!(scanner_sources(), vec![PackageSource::Pacman, PackageSource::Flatpak, PackageSource::AppImage]);
    assert_eq!(total_steps(3), 5);
    let pkgs = vec![pkg("a", PackageSource::Pacman), pkg("b", PackageSource::Flatpak), pkg("c", PackageSource::Pacman)];
    assert_eq!(source_counts(&pkgs), vec![(PackageSource::Pacman, 2), (PackageSource::Flatpak, 1)]);
    let r = finish_scan(pkgs, &vec!["a".to_string()], vec!["[x] y".to_string()]);
    assert_eq!(r.packages.len(), 3);
    assert_eq!(r.dep_tree.package_count(), 3);
    assert!(r.dep_tree.get("pacman:a").unwrap().is_protected);
    assert!(!r.dep_tree.get("pacman:c").unwrap().is_protected);
    assert_eq!(r.errors, vec!["[x] y"]);
    assert_eq!(starting_text("Pacman"), "Scanning: Pacman...");
    let (a, b) = done_texts("Flatpak", 12);
    assert_eq!(a, "Flatpak — 12 packages found");
    assert_eq!(b, "Flatpak done — 12 packages found so far");
    assert_eq!(complete_text(1500), "1500 packages scanned");
}

#[test]
fn enrichment_reads_system_flatpak_and_user_dirs() {
    assert_eq!(
        enrichment_dirs(Some("/home/u")),
        vec![
            "/usr/share/applications",
            "/var/lib/flatpak/exports/share/applications",
            "/home/u/.local/share/applications"
        ]
    );
    assert_eq!(enrichment_dirs(None), vec!["/usr/share/applications", "/var/lib/flatpak/exports/share/applications"]);
}

#[test]
fn scan_run_keeps_packages_and_errors_in_order() {
    let mut run = ScanRun::new(3);
    assert_eq!((run.step, run.total), (0, 5));
    run.skip();
    match run.record("Flatpak", Ok(vec![pkg("a", PackageSource::Flatpak), pkg("b", PackageSource::Flatpak)])) {
        ScanNotice::Done { label, total_so_far } => assert_eq!((label.as_str(), total_so_far), ("Flatpak", 2)),
        ScanNotice::Failed { .. } => panic!("expected success"),
    }
    let err = ScanError { source: "appimage", message: "Failed to read /opt: denied".to_string() };
    match run.record("AppImage", Err(err)) {
        ScanNotice::Failed { message } => assert_eq!(message, "[appimage] Failed to read /opt: denied"),
        ScanNotice::Done { .. } => panic!("expected failure"),
    }
    assert_eq!(run.step, 3);
    assert_eq!(run.errors, vec!["[appimage] Failed to read /opt: denied".to_string()]);
    let result = run.finish(&vec![]);
    assert_eq!(result.packages.len(), 2);
    assert_eq!(result.dep_tree.package_count(), 2);
    assert_eq!(result.errors.len(), 1);
}

#[test]
fn exec_index_skips_entries_whose_exec_has_no_word() {
    let blank = DesktopEntry {
        name: "Blank".to_string(),
        comment: String::new(),
        icon: None,
        exec_command: " \t ".to_string(),
        categories: Vec::new(),
    };
    let entries = vec![
        ("blank".to_string(), blank),
        parse_desktop_file("foo", "[Desktop Entry]\nName=Foo\nExec=/usr/bin/foo --x\n").unwrap(),
    ];
    let index = build_exec_index(&entries);
    assert_eq!(index, vec![("foo".to_string(), 1)]);
}

#[test]
fn desktop_file_ids_come_from_desktop_files_only() {
    assert_eq!(
        sysclean::scanner::desktop_entries::desktop_file_id("/usr/share/applications/org.gnome.Foo.desktop"),
        Some("org.gnome.Foo".to_string())
    );
    assert_eq!(sysclean::scanner::desktop_entries::desktop_file_id("/usr/share/applications/readme.txt"), None);
    assert_eq!(sysclean::scanner::desktop_entries::desktop_file_id("/usr/share/applications/desktop"), None);
    assert_eq!(sysclean::scanner::desktop_entries::desktop_file_id("/usr/share/applications/.desktop"), None);
    assert_eq!(
        sysclean::scanner::desktop_entries::desktop_file_id("/usr/share/applications/.x.desktop"),
        Some(".x".to_string())
    );
}

#[test]
fn a_leading_dot_starts_no_extension() {
    assert!(!has_appimage_extension("/opt/.AppImage"));
    assert!(has_appimage_extension("/opt/.x.AppImage"));
}

#[test]
fn source_counts_list_only_sources_that_occur() {
    let pkgs = vec![pkg("a", PackageSource::Flatpak), pkg("b", PackageSource::Pacman), pkg("c", PackageSource::Flatpak)];
    assert_eq!(source_counts(&pkgs), vec![(PackageSource::Flatpak, 2), (PackageSource::Pacman, 1)]);
    let mut run = ScanRun::new(3);
    let _ = run.record("Flatpak", Ok(pkgs));
    let result = run.finish(&vec![]);
    assert_eq!(result.source_counts, vec![(PackageSource::Flatpak, 2), (PackageSource::Pacman, 1)]);
    assert!(result.source_counts.iter().all(|(_, n)| *n > 0));
}

#[test]
fn qualified_ids_keep_sources_apart() {
    let a = pkg("pip", PackageSource::Pacman);
    let b = pkg("pacman", PackageSource::Pip);
    assert_ne!(a.qualified_id(), b.qualified_id());
    assert_eq!(a.qualified_id(), "pacman:pip");
    assert_eq!(b.qualified_id(), "pip:pacman");
}
