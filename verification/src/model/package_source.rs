//! Where a package was installed from.

use vstd::prelude::*;

verus! {

/// The installation source of a package.
#[derive(Debug, Clone, Copy, PartialEq, Eq, Hash, Structural)]
pub enum PackageSource {
    Pacman,
    Aur,
    Flatpak,
    Snap,
    AppImage,
    Wine,
    Pip,
    Npm,
    Cargo,
    Desktop,
}

/// The human-readable name of a source.
pub open spec fn label_text(s: PackageSource) -> Seq<char> {
    match s {
        PackageSource::Pacman => "Pacman"@,
        PackageSource::Aur => "AUR"@,
        PackageSource::Flatpak => "Flatpak"@,
        PackageSource::Snap => "Snap"@,
        PackageSource::AppImage => "AppImage"@,
        PackageSource::Wine => "Wine"@,
        PackageSource::Pip => "pip"@,
        PackageSource::Npm => "npm"@,
        PackageSource::Cargo => "Cargo"@,
        PackageSource::Desktop => "Desktop"@,
    }
}

/// The themed icon shown for a source.
pub open spec fn icon_text(s: PackageSource) -> Seq<char> {
    match s {
        PackageSource::Pacman | PackageSource::Aur | PackageSource::Flatpak
        | PackageSource::Snap => "system-software-install-symbolic"@,
        PackageSource::AppImage => "application-x-executable-symbolic"@,
        PackageSource::Wine => "preferences-desktop-apps-symbolic"@,
        PackageSource::Pip | PackageSource::Npm | PackageSource::Cargo => "utilities-terminal-symbolic"@,
        PackageSource::Desktop => "application-x-desktop-symbolic"@,
    }
}

/// The prefix of qualified package ids of a source.
pub open spec fn prefix_text(s: PackageSource) -> Seq<char> {
    match s {
        PackageSource::Pacman => "pacman"@,
        PackageSource::Aur => "aur"@,
        PackageSource::Flatpak => "flatpak"@,
        PackageSource::Snap => "snap"@,
        PackageSource::AppImage => "appimage"@,
        PackageSource::Wine => "wine"@,
        PackageSource::Pip => "pip"@,
        PackageSource::Npm => "npm"@,
        PackageSource::Cargo => "cargo"@,
        PackageSource::Desktop => "desktop"@,
    }
}

/// A character with the ASCII capitals `A` to `Z` brought to lower case.
pub open spec fn ascii_lower_char(c: char) -> char {
    if 'A' <= c && c <= 'Z' {
        ((c as u32) + 32) as char
    } else {
        c
    }
}

/// A text with its ASCII capitals brought to lower case, all else unchanged.
pub open spec fn ascii_lower(s: Seq<char>) -> Seq<char> {
    s.map_values(|c: char| ascii_lower_char(c))
}

impl PackageSource {
    pub fn label(&self) -> (r: &'static str)
        ensures
            r@ == label_text(*self),
    {
        match self {
            PackageSource::Pacman => "Pacman",
            PackageSource::Aur => "AUR",
            PackageSource::Flatpak => "Flatpak",
            PackageSource::Snap => "Snap",
            PackageSource::AppImage => "AppImage",
            PackageSource::Wine => "Wine",
            PackageSource::Pip => "pip",
            PackageSource::Npm => "npm",
            PackageSource::Cargo => "Cargo",
            PackageSource::Desktop => "Desktop",
        }
    }

    pub fn icon_name(&self) -> (r: &'static str)
        ensures
            r@ == icon_text(*self),
    {
        match self {
            PackageSource::Pacman | PackageSource::Aur => "system-software-install-symbolic",
            PackageSource::Flatpak => "system-software-install-symbolic",
            PackageSource::Snap => "system-software-install-symbolic",
            PackageSource::AppImage => "application-x-executable-symbolic",
            PackageSource::Wine => "preferences-desktop-apps-symbolic",
            PackageSource::Pip | PackageSource::Npm | PackageSource::Cargo => "utilities-terminal-symbolic",
            PackageSource::Desktop => "application-x-desktop-symbolic",
        }
    }

    pub fn prefix(&self) -> (r: &'static str)
        ensures
            r@ == prefix_text(*self),
    {
        match self {
            PackageSource::Pacman => "pacman",
            PackageSource::Aur => "aur",
            PackageSource::Flatpak => "flatpak",
            PackageSource::Snap => "snap",
            PackageSource::AppImage => "appimage",
            PackageSource::Wine => "wine",
            PackageSource::Pip => "pip",
            PackageSource::Npm => "npm",
            PackageSource::Cargo => "cargo",
            PackageSource::Desktop => "desktop",
        }
    }
}

/// Source prefixes hold no `:` and differ between sources, so the text
/// before the first `:` of a qualified id names its source.
pub proof fn lemma_prefixes_distinct(a: PackageSource, b: PackageSource)
    ensures
        !prefix_text(a).contains(':'),
        a != b ==> prefix_text(a) != prefix_text(b),
{
    reveal_strlit("pacman");
    reveal_strlit("aur");
    reveal_strlit("flatpak");
    reveal_strlit("snap");
    reveal_strlit("appimage");
    reveal_strlit("wine");
    reveal_strlit("pip");
    reveal_strlit("npm");
    reveal_strlit("cargo");
    reveal_strlit("desktop");
    let p = prefix_text(a);
    assert(!p.contains(':')) by {
        if p.contains(':') {
            let k = choose|k: int| 0 <= k < p.len() && p[k] == ':';
        }
    }
    if a != b {
        let q = prefix_text(b);
        assert(p != q) by {
            if p == q {
                assert(p.len() == q.len());
                assert(p[0] == q[0]);
                assert(p[p.len() - 1] == q[q.len() - 1]);
            }
        }
    }
}

/// The prefix of every source is its label in lower case.
pub proof fn lemma_prefix_is_lowercase_label(s: PackageSource)
    ensures
        prefix_text(s) == ascii_lower(label_text(s)),
{
    reveal_strlit("Pacman");
    reveal_strlit("AUR");
    reveal_strlit("Flatpak");
    reveal_strlit("Snap");
    reveal_strlit("AppImage");
    reveal_strlit("Wine");
    reveal_strlit("pip");
    reveal_strlit("npm");
    reveal_strlit("Cargo");
    reveal_strlit("Desktop");
    reveal_strlit("pacman");
    reveal_strlit("aur");
    reveal_strlit("flatpak");
    reveal_strlit("snap");
    reveal_strlit("appimage");
    reveal_strlit("wine");
    reveal_strlit("cargo");
    reveal_strlit("desktop");
    assert(prefix_text(s) =~= ascii_lower(label_text(s)));
}

} // verus!
