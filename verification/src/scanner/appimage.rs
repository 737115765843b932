//! AppImage bundles found in the usual application directories.

use vstd::prelude::*;

use crate::model::package::{make_qualified_id, qualified_id_of, PackageInfo};
use crate::model::package_source::PackageSource;
use crate::paths::{extension, extension_text, file_name, file_name_text, join_path, joined};
use crate::text::{
    before_char, before_first, chars_of, lemma_strs_push, lowercase_of, push_str, str_eq, string_of,
    strip_suffixes, strs, to_lowercase, trim_end_matches,
};

verus! {

/// Finds AppImage files.
pub struct AppImageScanner;

impl AppImageScanner {
    /// The source of the packages this scanner finds.
    pub fn source(&self) -> (r: PackageSource)
        ensures
            r == PackageSource::AppImage,
    {
        PackageSource::AppImage
    }

    /// The scanner's name for progress messages.
    pub fn label(&self) -> (r: &'static str)
        ensures
            r@ == "AppImage"@,
    {
        "AppImage"
    }
}

/// The directories searched: `/opt` and, when the home directory is known,
/// `~/Applications`, `~/bin` and `~/.local/bin`.
pub fn search_dirs(home: Option<&str>) -> (r: Vec<String>)
    ensures
        strs(r@) == seq!["/opt"@] + match home {
            Some(h) => seq![joined(h@, "Applications"@), joined(h@, "bin"@), joined(h@, ".local/bin"@)],
            None => seq![],
        },
{
    let mut r: Vec<String> = Vec::new();
    let a = "/opt".to_owned();
    proof {
        lemma_strs_push(r@, a);
    }
    r.push(a);
    match home {
        Some(h) => {
            let b = join_path(h, "Applications");
            proof {
                lemma_strs_push(r@, b);
            }
            r.push(b);
            let c = join_path(h, "bin");
            proof {
                lemma_strs_push(r@, c);
            }
            r.push(c);
            let d = join_path(h, ".local/bin");
            proof {
                lemma_strs_push(r@, d);
            }
            r.push(d);
        },
        None => {},
    }
    proof {
        assert(strs(r@) =~= seq!["/opt"@] + match home {
            Some(h) => seq![joined(h@, "Applications"@), joined(h@, "bin"@), joined(h@, ".local/bin"@)],
            None => seq![],
        });
    }
    r
}

/// Whether the path's extension is `AppImage` in any letter case.
pub open spec fn appimage_extension(path: Seq<char>) -> bool {
    match extension_text(path) {
        Some(e) => lowercase_of(e) == "appimage"@,
        None => false,
    }
}

/// Whether a path names an AppImage by its extension.
pub fn has_appimage_extension(path: &str) -> (r: bool)
    ensures
        r == appimage_extension(path@),
{
    match extension(path) {
        Some(e) => {
            let l = to_lowercase(e.as_str());
            str_eq(l.as_str(), "appimage")
        },
        None => false,
    }
}

/// Whether file contents start like a type 2 AppImage: an ELF header with
/// the marker `AI` at offset 8, in a file longer than 11 bytes.
pub open spec fn appimage_magic(data: Seq<u8>) -> bool {
    &&& data.len() > 11
    &&& data[0] == 0x7f && data[1] == 0x45 && data[2] == 0x4c && data[3] == 0x46
    &&& data[8] == 0x41 && data[9] == 0x49
}

/// Whether file contents carry the AppImage marker.
pub fn has_appimage_magic(data: &[u8]) -> (r: bool)
    ensures
        r == appimage_magic(data@),
{
    data.len() > 11 && data[0] == 0x7f && data[1] == 0x45 && data[2] == 0x4c && data[3] == 0x46
        && data[8] == 0x41 && data[9] == 0x49
}

/// The application name of an AppImage file name: without the
/// `.AppImage`/`.appimage` extension, up to the first `-`
/// (`"Obsidian-1.5.3.AppImage"` gives `"Obsidian"`).
pub open spec fn appimage_name_of(file_name: Seq<char>) -> Seq<char> {
    before_char(trim_end_matches(trim_end_matches(file_name, ".AppImage"@), ".appimage"@), '-')
}

/// The application name of an AppImage file name.
pub fn appimage_name(file_name: &str) -> (r: String)
    ensures
        r@ == appimage_name_of(file_name@),
{
    let v = chars_of(file_name);
    let a = strip_suffixes(&v, &chars_of(".AppImage"));
    let b = strip_suffixes(&a, &chars_of(".appimage"));
    string_of(&before_first(&b, '-'))
}

/// The package record of an AppImage at `path` of `size` bytes; `None`
/// when the path has no file name.
pub fn appimage_to_package(path: &str, size: u64) -> (r: Option<PackageInfo>)
    ensures
        match r {
            None => file_name_text(path@).is_none(),
            Some(p) => {
                &&& file_name_text(path@).is_some()
                &&& p.name@ == appimage_name_of(file_name_text(path@).unwrap())
                &&& p.id@ == qualified_id_of(PackageSource::AppImage, p.name@)
                &&& p.display_name@ == p.name@
                &&& p.version@ == Seq::<char>::empty()
                &&& p.description@ == "AppImage at "@ + path@
                &&& p.categories@.len() == 0
                &&& p.icon_name.is_none()
                &&& p.source == PackageSource::AppImage
                &&& p.installed_size == size
                &&& p.depends@.len() == 0
                &&& p.required_by@.len() == 0
                &&& p.provides@.len() == 0
                &&& p.is_explicit
                &&& !p.is_protected
                &&& p.install_path.is_some() && p.install_path.unwrap()@ == path@
                &&& p.install_date.is_none()
            },
        },
{
    let f = match file_name(path) {
        Some(f) => f,
        None => return None,
    };
    let name = appimage_name(f.as_str());
    let id = make_qualified_id(PackageSource::AppImage, name.as_str());
    let mut d: Vec<char> = Vec::new();
    push_str(&mut d, "AppImage at ");
    push_str(&mut d, path);
    Some(
        PackageInfo {
            id,
            name: name.clone(),
            display_name: name,
            version: String::new(),
            description: string_of(&d),
            categories: Vec::new(),
            icon_name: None,
            source: PackageSource::AppImage,
            installed_size: size,
            depends: Vec::new(),
            required_by: Vec::new(),
            provides: Vec::new(),
            is_explicit: true,
            is_protected: false,
            install_path: Some(path.to_owned()),
            install_date: None,
        },
    )
}

} // verus!
