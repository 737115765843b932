use sysclean::model::package_source::PackageSource;
use sysclean::scanner::pacman::{
    package_info, parse_install_date, parse_package_block, parse_pacman_output, parse_size_parts,
    protected_names, read_block_fields, output_lines, PacmanScanner,
};

const BLOCK: &str = "Name            : firefox\n\
Version         : 124.0-1\n\
Description     : Fast, Private & Safe Web Browser\n\
Depends On      : gtk3  libxt>=1.0  mime-types=2\n\
                  dbus\n\
Required By     : None\n\
Provides        : web-browser=1\n\
Installed Size  : 245.00 MiB\n\
Install Date    : Thu 27 Feb 2025 03:45:12 PM UTC\n";

#[test]
fn scanner_names_itself() {
    assert_eq!(PacmanScanner.label(), "Pacman");
    assert_eq!(PacmanScanner.source(), PackageSource::Pacman);
}

#[test]
fn install_date_to_epoch_seconds() {
    // 2025-02-27 15:45:12 UTC
    assert_eq!(parse_install_date("Thu 27 Feb 2025 03:45:12 PM UTC"), Some(1740671112));
    assert_eq!(parse_install_date("Thu 01 Jan 1970 12:00:05 AM UTC"), Some(5));
    assert_eq!(parse_install_date("Sat 01 Jan 2000 12:00:00 PM UTC"), Some(946728000));
    assert_eq!(parse_install_date("Thu 27 Foo 2025 03:45:12 PM UTC"), None);
    assert_eq!(parse_install_date("Thu 27 Feb 2025 03:45 PM UTC"), None);
    assert_eq!(parse_install_date("Thu 27 Feb"), None);
}

#[test]
fn block_fields_join_continuation_lines_and_strip_versions() {
    let f = read_block_fields(BLOCK);
    assert_eq!(f.name, "firefox");
    assert_eq!(f.version, "124.0-1");
    assert_eq!(f.description, "Fast, Private & Safe Web Browser");
    assert_eq!(f.depends, vec!["gtk3", "libxt", "mime-types", "dbus"]);
    assert!(f.required_by.is_empty());
    assert_eq!(f.provides, vec!["web-browser"]);
    assert_eq!(f.installed_size, "245.00 MiB");
    assert_eq!(f.install_date, Some(1740671112));
}

#[test]
fn package_block_explicit_and_foreign() {
    let explicit = vec!["firefox".to_string()];
    let foreign = vec!["firefox".to_string()];
    let e = parse_package_block(BLOCK, &explicit, &foreign).unwrap();
    assert!(e.is_explicit);
    assert_eq!(e.source, PackageSource::Aur);
    let e2 = parse_package_block(BLOCK, &vec![], &vec![]).unwrap();
    assert!(!e2.is_explicit);
    assert_eq!(e2.source, PackageSource::Pacman);
    assert!(parse_package_block("Version : 1\n", &vec![], &vec![]).is_none());
}

#[test]
fn package_info_from_entry() {
    let e = parse_package_block(BLOCK, &vec!["firefox".to_string()], &vec![]).unwrap();
    let p = package_info(e, 256901120);
    assert_eq!(p.id, "pacman:firefox");
    assert_eq!(p.name, "firefox");
    assert_eq!(p.display_name, "");
    assert_eq!(p.installed_size, 256901120);
    assert!(p.is_explicit);
    assert!(!p.is_protected);
    assert_eq!(p.install_date, Some(1740671112));
}

#[test]
fn output_is_split_into_blocks() {
    let out = format!("{BLOCK}\nName : zlib\nVersion : 1.3\n\n\n");
    let entries = parse_pacman_output(&out, &vec![], &vec![]);
    assert_eq!(entries.len(), 2);
    assert_eq!(entries[0].fields.name, "firefox");
    assert_eq!(entries[1].fields.name, "zlib");
    assert_eq!(entries[1].fields.version, "1.3");
}

#[test]
fn size_parts_and_units() {
    assert_eq!(parse_size_parts("245.00 MiB"), Some(("245.00".to_string(), 1048576)));
    assert_eq!(parse_size_parts("1.20 GiB"), Some(("1.20".to_string(), 1073741824)));
    assert_eq!(parse_size_parts("52.00 KiB"), Some(("52.00".to_string(), 1024)));
    assert_eq!(parse_size_parts("7 B"), Some(("7".to_string(), 1)));
    assert_eq!(parse_size_parts("2 TiB"), Some(("2".to_string(), 1099511627776)));
    assert_eq!(parse_size_parts("2 PiB"), Some(("2".to_string(), 0)));
    assert_eq!(parse_size_parts("245.00"), None);
}

#[test]
fn protected_names_include_base_deps_kernel_and_managers() {
    let info = "Name : base\nDepends On      : filesystem  gcc-libs  glibc>=2.38  bash\nRequired By : None\n";
    assert_eq!(
        protected_names(Some(info)),
        vec!["base", "filesystem", "gcc-libs", "glibc", "bash", "linux", "linux-headers", "linux-firmware", "pacman", "yay", "paru"]
    );
    assert_eq!(
        protected_names(None),
        vec!["base", "linux", "linux-headers", "linux-firmware", "pacman", "yay", "paru"]
    );
}

#[test]
fn output_lines_are_str_lines() {
    assert_eq!(output_lines("a\nb\r\n\nc"), vec!["a", "b", "", "c"]);
    assert!(output_lines("").is_empty());
}
