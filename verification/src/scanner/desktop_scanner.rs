//! Programs known only by a `.desktop` file: standalone applications that
//! no package manager installed.

use vstd::prelude::*;

use crate::model::dep_tree::contains_string;
use crate::model::package::{qid, PackageInfo};
use crate::model::package_source::PackageSource;
use crate::paths::{file_name, file_name_text, join_path, joined};
use crate::scanner::desktop_entries::{binary_of, exec_binary};
use crate::scanner::desktop_file::{desktop_fields, parse_desktop_content, DesktopView};
use crate::text::{
    after_last, after_last_char, chars_of, lemma_strs_push, lowercase_of, pieces, split_whitespace,
    split_ws, string_of, strs, to_lowercase,
};

verus! {

/// Finds `.desktop` entries that no other scanner has claimed.
pub struct DesktopEntryScanner {
    /// Lower-cased names and the qualified ids of the packages found so far.
    known_packages: Vec<String>,
    /// Lower-cased file names of the install paths of those packages.
    known_binaries: Vec<String>,
}

/// The names a package is known by: its lower-cased name and its id.
pub open spec fn known_of(pkgs: Seq<PackageInfo>) -> Seq<Seq<char>>
    decreases pkgs.len(),
{
    if pkgs.len() == 0 {
        seq![]
    } else {
        known_of(pkgs.drop_last()) + seq![lowercase_of(pkgs.last().name@), qid(pkgs.last())]
    }
}

/// The lower-cased file names of the packages' install paths.
pub open spec fn binaries_of(pkgs: Seq<PackageInfo>) -> Seq<Seq<char>>
    decreases pkgs.len(),
{
    if pkgs.len() == 0 {
        seq![]
    } else {
        let rest = binaries_of(pkgs.drop_last());
        match pkgs.last().install_path {
            Some(p) => match file_name_text(p@) {
                Some(f) => rest.push(lowercase_of(f)),
                None => rest,
            },
            None => rest,
        }
    }
}

/// Whether an entry is already covered by a known package: by its desktop
/// id, its name or its program (all compared lower-cased), or by the last
/// dot-separated part of its id (`org.foo.Bar` gives `bar`).
pub open spec fn claimed(
    known: Seq<Seq<char>>,
    binaries: Seq<Seq<char>>,
    desktop_id: Seq<char>,
    exec_binary: Seq<char>,
    name: Seq<char>,
) -> bool {
    let id_lower = lowercase_of(desktop_id);
    let exec_lower = lowercase_of(exec_binary);
    ||| known.contains(id_lower)
    ||| known.contains(lowercase_of(name))
    ||| known.contains(exec_lower)
    ||| binaries.contains(exec_lower)
    ||| known.contains(after_last(id_lower, '.'))
}

/// Whether the fields describe a visible application: not hidden, named,
/// and of type `Application` or of no stated type.
pub open spec fn shown_application(f: DesktopView) -> bool {
    &&& !f.no_display
    &&& f.name.len() > 0
    &&& (f.entry_type == "Application"@ || f.entry_type.len() == 0)
}

/// The program path of an `Exec` line: its first word, when the line is
/// not empty.
pub open spec fn exec_path_of(exec: Seq<char>) -> Option<Seq<char>> {
    if exec.len() == 0 {
        None
    } else if split_ws(exec).len() == 0 {
        Some(seq![])
    } else {
        Some(split_ws(exec)[0])
    }
}

/// An accepted entry, before its install path is resolved.
pub struct DesktopCandidate {
    pub desktop_id: String,
    pub name: String,
    pub comment: String,
    pub icon: Option<String>,
    pub categories: Vec<String>,
    /// The program named on the `Exec` line, when there is one.
    pub exec_path: Option<String>,
}

fn push_lower(v: &mut Vec<String>, s: &str)
    ensures
        strs(final(v)@) == strs(old(v)@).push(lowercase_of(s@)),
{
    let l = to_lowercase(s);
    proof {
        lemma_strs_push(v@, l);
    }
    v.push(l);
}

impl DesktopEntryScanner {
    pub closed spec fn known(&self) -> Seq<Seq<char>> {
        strs(self.known_packages@)
    }

    pub closed spec fn binaries(&self) -> Seq<Seq<char>> {
        strs(self.known_binaries@)
    }

    /// A scanner that knows the packages found so far.
    pub fn new(existing_packages: &Vec<PackageInfo>) -> (s: Self)
        ensures
            s.known() == known_of(existing_packages@),
            s.binaries() == binaries_of(existing_packages@),
    {
        let mut known_packages: Vec<String> = Vec::new();
        let mut known_binaries: Vec<String> = Vec::new();
        let mut i: usize = 0;
        while i < existing_packages.len()
            invariant
                i <= existing_packages@.len(),
                strs(known_packages@) == known_of(existing_packages@.take(i as int)),
                strs(known_binaries@) == binaries_of(existing_packages@.take(i as int)),
            decreases existing_packages@.len() - i,
        {
            let pkg = &existing_packages[i];
            proof {
                assert(existing_packages@.take(i + 1).drop_last() =~= existing_packages@.take(i as int));
                assert(existing_packages@.take(i + 1).last() == *pkg);
            }
            push_lower(&mut known_packages, pkg.name.as_str());
            let q = pkg.qualified_id();
            proof {
                lemma_strs_push(known_packages@, q);
            }
            known_packages.push(q);
            match &pkg.install_path {
                Some(path) => match file_name(path.as_str()) {
                    Some(f) => {
                        push_lower(&mut known_binaries, f.as_str());
                    },
                    None => {},
                },
                None => {},
            }
            i = i + 1;
        }
        proof {
            assert(existing_packages@.take(existing_packages@.len() as int) =~= existing_packages@);
        }
        DesktopEntryScanner { known_packages, known_binaries }
    }

    /// The source of the packages this scanner finds.
    pub fn source(&self) -> (r: PackageSource)
        ensures
            r == PackageSource::Desktop,
    {
        PackageSource::Desktop
    }

    /// The scanner's name for progress messages.
    pub fn label(&self) -> (r: &'static str)
        ensures
            r@ == "Desktop entries"@,
    {
        "Desktop entries"
    }

    /// Whether an entry is already covered by a package found earlier.
    pub fn is_claimed(&self, desktop_id: &str, exec_binary: &str, name: &str) -> (r: bool)
        ensures
            r == claimed(self.known(), self.binaries(), desktop_id@, exec_binary@, name@),
    {
        let id_lower = to_lowercase(desktop_id);
        let exec_lower = to_lowercase(exec_binary);
        let name_lower = to_lowercase(name);
        let id_chars = chars_of(id_lower.as_str());
        let last = string_of(&after_last_char(&id_chars, '.'));
        contains_string(&self.known_packages, &id_lower) || contains_string(
            &self.known_packages,
            &name_lower,
        ) || contains_string(&self.known_packages, &exec_lower) || contains_string(
            &self.known_binaries,
            &exec_lower,
        ) || contains_string(&self.known_packages, &last)
    }

    /// Decides on one `.desktop` file, named `desktop_id` without its
    /// extension: `None` when it is hidden, not an application, claimed by a
    /// known package, or already seen by this scan; otherwise the candidate,
    /// and `desktop_id` is added to `seen_ids`.
    pub fn parse_desktop_entry(&self, desktop_id: &str, content: &str, seen_ids: &mut Vec<String>) -> (r:
        Option<DesktopCandidate>)
        ensures
            ({
                let f = desktop_fields(content@);
                let accept = shown_application(f) && !claimed(
                    self.known(),
                    self.binaries(),
                    desktop_id@,
                    binary_of(f.exec_command),
                    f.name,
                ) && !strs(old(seen_ids)@).contains(desktop_id@);
                &&& r.is_some() == accept
                &&& strs(final(seen_ids)@) == if accept {
                    strs(old(seen_ids)@).push(desktop_id@)
                } else {
                    strs(old(seen_ids)@)
                }
                &&& r matches Some(c) ==> {
                    &&& c.desktop_id@ == desktop_id@
                    &&& c.name@ == f.name
                    &&& c.comment@ == f.comment
                    &&& (match c.icon {
                        Some(s) => f.icon == Some(s@),
                        None => f.icon.is_none(),
                    })
                    &&& strs(c.categories@) == f.categories
                    &&& (match c.exec_path {
                        Some(s) => exec_path_of(f.exec_command) == Some(s@),
                        None => exec_path_of(f.exec_command).is_none(),
                    })
                }
            }),
    {
        let f = parse_desktop_content(content);
        let ty = chars_of(f.entry_type.as_str());
        if f.no_display || f.name.as_str().is_empty() || (!crate::text::eq_str(&ty, "Application")
            && ty.len() > 0) {
            return None;
        }
        let binary = exec_binary(f.exec_command.as_str());
        if self.is_claimed(desktop_id, binary.as_str(), f.name.as_str()) {
            return None;
        }
        let id = desktop_id.to_owned();
        if contains_string(seen_ids, &id) {
            return None;
        }
        let id2 = desktop_id.to_owned();
        proof {
            lemma_strs_push(seen_ids@, id2);
        }
        seen_ids.push(id2);
        let exec_path = if f.exec_command.as_str().is_empty() {
            None
        } else {
            let v = chars_of(f.exec_command.as_str());
            let ws = split_whitespace(&v);
            if ws.len() == 0 {
                Some(String::new())
            } else {
                proof {
                    assert(pieces(ws@)[0] == ws@[0]@);
                }
                Some(string_of(&ws[0]))
            }
        };
        Some(
            DesktopCandidate {
                desktop_id: id,
                name: f.name,
                comment: f.comment,
                icon: f.icon,
                categories: f.categories,
                exec_path,
            },
        )
    }
}

/// The package record of an accepted entry, with the resolved path of its
/// program and that file's size.  Such programs stand alone: they count as
/// explicitly installed, with no dependencies.
pub fn desktop_package(c: DesktopCandidate, install_path: Option<String>, installed_size: u64) -> (p:
    PackageInfo)
    ensures
        p.id@ == Seq::<char>::empty(),
        p.name@ == c.desktop_id@,
        p.display_name == c.name,
        p.version@ == Seq::<char>::empty(),
        p.description == c.comment,
        p.categories == c.categories,
        p.icon_name == c.icon,
        p.source == PackageSource::Desktop,
        p.installed_size == installed_size,
        p.depends@.len() == 0,
        p.required_by@.len() == 0,
        p.provides@.len() == 0,
        p.is_explicit,
        !p.is_protected,
        p.install_path == install_path,
        p.install_date.is_none(),
{
    PackageInfo {
        id: String::new(),
        name: c.desktop_id,
        display_name: c.name,
        version: String::new(),
        description: c.comment,
        categories: c.categories,
        icon_name: c.icon,
        source: PackageSource::Desktop,
        installed_size,
        depends: Vec::new(),
        required_by: Vec::new(),
        provides: Vec::new(),
        is_explicit: true,
        is_protected: false,
        install_path,
        install_date: None,
    }
}

/// The directories searched for `.desktop` files: the system directory
/// and, when the home directory is known, the user's.
pub fn desktop_dirs(home: Option<&str>) -> (r: Vec<String>)
    ensures
        strs(r@) == seq!["/usr/share/applications"@] + match home {
            Some(h) => seq![joined(h@, ".local/share/applications"@)],
            None => seq![],
        },
{
    let mut r: Vec<String> = Vec::new();
    let a = "/usr/share/applications".to_owned();
    proof {
        lemma_strs_push(r@, a);
    }
    r.push(a);
    match home {
        Some(h) => {
            let b = join_path(h, ".local/share/applications");
            proof {
                lemma_strs_push(r@, b);
            }
            r.push(b);
        },
        None => {},
    }
    proof {
        assert(strs(r@) =~= seq!["/usr/share/applications"@] + match home {
            Some(h) => seq![joined(h@, ".local/share/applications"@)],
            None => seq![],
        });
    }
    r
}

} // verus!
