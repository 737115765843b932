//! Metadata from `.desktop` files added to the packages that other scanners
//! found: display names, descriptions, categories and icons.

use vstd::prelude::*;

use crate::model::package::{clone_opt_string, clone_strings, PackageInfo};
use crate::scanner::desktop_file::{desktop_fields, parse_desktop_content};
use crate::paths::{extension, extension_text, file_stem, file_stem_text, join_path, joined};
use crate::text::{
    after_last, after_last_char, chars_of, lemma_strs_push, pieces, split_whitespace, split_ws, string_of, strs,
};

verus! {

/// The parts of a `.desktop` file that are copied onto a package.
pub struct DesktopEntry {
    pub name: String,
    pub comment: String,
    pub icon: Option<String>,
    pub exec_command: String,
    pub categories: Vec<String>,
}

/// The program name of an `Exec` line: its first word with any directory
/// removed (empty when the line has no word).
pub open spec fn binary_of(exec: Seq<char>) -> Seq<char> {
    let ws = split_ws(exec);
    if ws.len() == 0 {
        seq![]
    } else {
        after_last(ws[0], '/')
    }
}

/// The program name of an `Exec` line.
pub fn exec_binary(exec: &str) -> (r: String)
    ensures
        r@ == binary_of(exec@),
{
    let v = chars_of(exec);
    let ws = split_whitespace(&v);
    if ws.len() == 0 {
        return String::new();
    }
    proof {
        assert(pieces(ws@)[0] == ws@[0]@);
    }
    let b = after_last_char(&ws[0], '/');
    string_of(&b)
}

impl DesktopEntry {
    /// Whether the entry launches a program named like the package.
    pub fn exec_matches_package(&self, pkg_name: &str) -> (r: bool)
        ensures
            r == (self.exec_command@.len() > 0 && binary_of(self.exec_command@) == pkg_name@),
    {
        if self.exec_command.as_str().is_empty() {
            return false;
        }
        let b = exec_binary(self.exec_command.as_str());
        crate::text::str_eq(b.as_str(), pkg_name)
    }
}

/// Reads a `.desktop` file: `None` when it is hidden (`NoDisplay=true`) or
/// has no name; otherwise the entry, keyed by `stem`, the file name without
/// `.desktop`.
pub fn parse_desktop_file(stem: &str, content: &str) -> (r: Option<(String, DesktopEntry)>)
    ensures
        match r {
            None => desktop_fields(content@).no_display || desktop_fields(content@).name.len() == 0,
            Some((id, e)) => {
                &&& !desktop_fields(content@).no_display
                &&& desktop_fields(content@).name.len() > 0
                &&& id@ == stem@
                &&& e.name@ == desktop_fields(content@).name
                &&& e.comment@ == desktop_fields(content@).comment
                &&& e.icon.is_some() == desktop_fields(content@).icon.is_some()
                &&& (e.icon.is_some() ==> e.icon.unwrap()@ == desktop_fields(content@).icon.unwrap())
                &&& e.exec_command@ == desktop_fields(content@).exec_command
                &&& crate::text::strs(e.categories@) == desktop_fields(content@).categories
            },
        },
{
    let f = parse_desktop_content(content);
    if f.no_display || f.name.as_str().is_empty() {
        return None;
    }
    Some((
        stem.to_owned(),
        DesktopEntry {
            name: f.name,
            comment: f.comment,
            icon: f.icon,
            exec_command: f.exec_command,
            categories: f.categories,
        },
    ))
}

// ---------------------------------------------------------------------------
// Matching entries to packages
// ---------------------------------------------------------------------------

/// Whether no later entry than `k` has the same id: with entries kept by
/// id, later files replace earlier ones.
pub open spec fn is_current(entries: Seq<(String, DesktopEntry)>, k: int) -> bool {
    forall|j: int| k < j < entries.len() ==> #[trigger] entries[j].0@ != entries[k].0@
}

/// Whether entry `k` is listed in the program-name index: it is current and
/// its `Exec` line has a word.
pub open spec fn indexed(entries: Seq<(String, DesktopEntry)>, k: int) -> bool {
    is_current(entries, k) && split_ws(entries[k].1.exec_command@).len() > 0
}

/// The position of the entry whose id is `name` (the last one), if any.
pub open spec fn by_id(entries: Seq<(String, DesktopEntry)>, name: Seq<char>) -> Option<int>
    decreases entries.len(),
{
    if entries.len() == 0 {
        None
    } else if entries.last().0@ == name {
        Some(entries.len() - 1)
    } else {
        by_id(entries.drop_last(), name)
    }
}

/// The position of the indexed entry whose program is named `name` (the
/// last one, as later index insertions replace earlier ones), if any.
pub open spec fn by_program(entries: Seq<(String, DesktopEntry)>, all: Seq<(String, DesktopEntry)>, name: Seq<char>) -> Option<int>
    decreases entries.len(),
{
    if entries.len() == 0 {
        None
    } else {
        let k = entries.len() - 1;
        if indexed(all, k) && binary_of(all[k].1.exec_command@) == name {
            Some(k)
        } else {
            by_program(entries.drop_last(), all, name)
        }
    }
}

/// The entry used for a package: the one whose id is the package name, or
/// else the indexed one whose program has the package's name.
pub open spec fn entry_for(entries: Seq<(String, DesktopEntry)>, name: Seq<char>) -> Option<int> {
    match by_id(entries, name) {
        Some(k) => Some(k),
        None => by_program(entries, entries, name),
    }
}

/// `q` is `p` with the entry's metadata copied on: a non-empty name becomes
/// the display name, a non-empty comment the description when there was
/// none, non-empty categories replace the package's, and an icon replaces
/// the package's.
pub open spec fn applied(p: PackageInfo, e: DesktopEntry, q: PackageInfo) -> bool {
    &&& q.display_name@ == (if e.name@.len() > 0 { e.name@ } else { p.display_name@ })
    &&& q.description@ == (if e.comment@.len() > 0 && p.description@.len() == 0 {
        e.comment@
    } else {
        p.description@
    })
    &&& q.categories@ == (if e.categories@.len() > 0 { e.categories@ } else { p.categories@ })
    &&& q.icon_name == (if e.icon.is_some() { e.icon } else { p.icon_name })
    &&& q.id == p.id
    &&& q.name == p.name
    &&& q.version == p.version
    &&& q.source == p.source
    &&& q.installed_size == p.installed_size
    &&& q.depends == p.depends
    &&& q.required_by == p.required_by
    &&& q.provides == p.provides
    &&& q.is_explicit == p.is_explicit
    &&& q.is_protected == p.is_protected
    &&& q.install_path == p.install_path
    &&& q.install_date == p.install_date
}

/// `q` is `p` enriched from the entries.
pub open spec fn enriched(entries: Seq<(String, DesktopEntry)>, p: PackageInfo, q: PackageInfo) -> bool {
    match entry_for(entries, p.name@) {
        Some(k) => applied(p, entries[k].1, q),
        None => q == p,
    }
}

fn apply_entry(pkg: &mut PackageInfo, entry: &DesktopEntry)
    ensures
        applied(*old(pkg), *entry, *final(pkg)),
{
    if !entry.name.as_str().is_empty() {
        pkg.display_name = entry.name.clone();
    }
    if !entry.comment.as_str().is_empty() && pkg.description.as_str().is_empty() {
        pkg.description = entry.comment.clone();
    }
    if entry.categories.len() > 0 {
        pkg.categories = clone_strings(&entry.categories);
    }
    if entry.icon.is_some() {
        pkg.icon_name = clone_opt_string(&entry.icon);
    }
}

fn same_text(a: &String, b: &String) -> (r: bool)
    ensures
        r == (a@ == b@),
{
    crate::text::str_eq(a.as_str(), b.as_str())
}

/// The id of a `.desktop` file: its file stem, when the path's extension
/// is `desktop`.
pub open spec fn desktop_id_of(path: Seq<char>) -> Option<Seq<char>> {
    if extension_text(path) == Some("desktop"@) {
        file_stem_text(path)
    } else {
        None
    }
}

/// The id of the `.desktop` file at `path`, or `None` for any other file.
pub fn desktop_file_id(path: &str) -> (r: Option<String>)
    ensures
        match r {
            Some(id) => desktop_id_of(path@) == Some(id@),
            None => desktop_id_of(path@).is_none(),
        },
{
    match extension(path) {
        Some(e) => {
            if crate::text::str_eq(e.as_str(), "desktop") {
                file_stem(path)
            } else {
                None
            }
        },
        None => None,
    }
}

/// Whether a text has a word (a non-whitespace character).
fn has_word(s: &str) -> (r: bool)
    ensures
        r == (split_ws(s@).len() > 0),
{
    let ws = split_whitespace(&chars_of(s));
    ws.len() > 0
}

/// The index of program names: for every current entry whose `Exec` line
/// has a word, its program name and position, in entry order.
pub fn build_exec_index(entries: &Vec<(String, DesktopEntry)>) -> (r: Vec<(String, usize)>)
    ensures
        forall|j: int| 0 <= j < r@.len() ==> {
            &&& 0 <= #[trigger] r@[j].1 < entries@.len()
            &&& indexed(entries@, r@[j].1 as int)
            &&& r@[j].0@ == binary_of(entries@[r@[j].1 as int].1.exec_command@)
        },
        forall|j: int, l: int| 0 <= j < l < r@.len() ==> #[trigger] r@[j].1 < #[trigger] r@[l].1,
        forall|k: int| 0 <= k < entries@.len() && indexed(entries@, k) ==> exists|j: int| 0 <= j < r@.len() && #[trigger] r@[j].1 == k,
{
    let n = entries.len();
    let mut r: Vec<(String, usize)> = Vec::new();
    let mut k: usize = 0;
    while k < n
        invariant
            n == entries@.len(),
            k <= n,
            forall|j: int| 0 <= j < r@.len() ==> {
                &&& 0 <= #[trigger] r@[j].1 < k
                &&& indexed(entries@, r@[j].1 as int)
                &&& r@[j].0@ == binary_of(entries@[r@[j].1 as int].1.exec_command@)
            },
            forall|j: int, l: int| 0 <= j < l < r@.len() ==> #[trigger] r@[j].1 < #[trigger] r@[l].1,
            forall|m: int| 0 <= m < k && indexed(entries@, m) ==> exists|j: int| 0 <= j < r@.len() && #[trigger] r@[j].1 == m,
        decreases n - k,
    {
        let mut current = true;
        let mut j: usize = k + 1;
        while j < n
            invariant
                n == entries@.len(),
                k < n,
                k + 1 <= j <= n,
                current == (forall|m: int| k < m < j ==> #[trigger] entries@[m].0@ != entries@[k as int].0@),
            decreases n - j,
        {
            if same_text(&entries[j].0, &entries[k].0) {
                current = false;
            }
            j = j + 1;
        }
        let ghost before = r@;
        if current && has_word(entries[k].1.exec_command.as_str()) {
            let b = exec_binary(entries[k].1.exec_command.as_str());
            r.push((b, k));
            proof {
                assert(r@[r@.len() - 1].1 == k);
            }
        }
        proof {
            assert forall|m: int| 0 <= m < k + 1 && indexed(entries@, m) implies exists|j: int|
                0 <= j < r@.len() && #[trigger] r@[j].1 == m by {
                if m < k {
                    let j = choose|j: int| 0 <= j < before.len() && #[trigger] before[j].1 == m;
                    assert(r@[j] == before[j]);
                } else {
                    assert(r@[r@.len() - 1].1 == k);
                }
            }
        }
        k = k + 1;
    }
    r
}

/// The position of the indexed entry whose program is `name`: the last
/// such one in the index.
#[verifier::loop_isolation(false)]
fn find_by_program(index: &Vec<(String, usize)>, entries: &Vec<(String, DesktopEntry)>, name: &String) -> (r: Option<usize>)
    requires
        forall|j: int| 0 <= j < index@.len() ==> {
            &&& 0 <= #[trigger] index@[j].1 < entries@.len()
            &&& indexed(entries@, index@[j].1 as int)
            &&& index@[j].0@ == binary_of(entries@[index@[j].1 as int].1.exec_command@)
        },
        forall|j: int, l: int| 0 <= j < l < index@.len() ==> #[trigger] index@[j].1 < #[trigger] index@[l].1,
        forall|k: int| 0 <= k < entries@.len() && indexed(entries@, k) ==> exists|j: int| 0 <= j < index@.len() && #[trigger] index@[j].1 == k,
    ensures
        r.is_some() ==> r.unwrap() < entries@.len(),
        match r {
            Some(k) => by_program(entries@, entries@, name@) == Some(k as int),
            None => by_program(entries@, entries@, name@).is_none(),
        },
{
    let mut j: usize = index.len();
    while j > 0
        invariant
            j <= index@.len(),
            forall|l: int| j <= l < index@.len() ==> #[trigger] index@[l].0@ != name@,
        decreases j,
    {
        if same_text(&index[j - 1].0, name) {
            let k = index[j - 1].1;
            proof {
                lemma_by_program_last(entries@, entries@, name@, index@, (j - 1) as int);
            }
            return Some(k);
        }
        j = j - 1;
    }
    proof {
        lemma_by_program_none(entries@, entries@, name@, index@);
    }
    None
}

proof fn lemma_by_program_last(
    part: Seq<(String, DesktopEntry)>,
    all: Seq<(String, DesktopEntry)>,
    name: Seq<char>,
    index: Seq<(String, usize)>,
    j: int,
)
    requires
        part.len() <= all.len(),
        forall|i: int| 0 <= i < part.len() ==> part[i] == all[i],
        0 <= j < index.len(),
        index[j].0@ == name,
        index[j].1 < part.len(),
        forall|l: int| j < l < index.len() ==> #[trigger] index[l].0@ != name,
        forall|i: int| 0 <= i < index.len() ==> {
            &&& 0 <= #[trigger] index[i].1 < all.len()
            &&& indexed(all, index[i].1 as int)
            &&& index[i].0@ == binary_of(all[index[i].1 as int].1.exec_command@)
        },
        forall|a: int, b: int| 0 <= a < b < index.len() ==> #[trigger] index[a].1 < #[trigger] index[b].1,
        forall|k: int| 0 <= k < all.len() && indexed(all, k) ==> exists|i: int| 0 <= i < index.len() && #[trigger] index[i].1 == k,
    ensures
        by_program(part, all, name) == Some(index[j].1 as int),
    decreases part.len(),
{
    let k = part.len() - 1;
    if k == index[j].1 as int {
    } else {
        if indexed(all, k) && binary_of(all[k].1.exec_command@) == name {
            let i = choose|i: int| 0 <= i < index.len() && #[trigger] index[i].1 == k;
            if i <= j {
                if i < j {
                    assert(index[i].1 < index[j].1);
                }
            }
            assert(index[i].0@ == name);
            assert(false);
        }
        lemma_by_program_last(part.drop_last(), all, name, index, j);
    }
}

proof fn lemma_by_program_none(
    part: Seq<(String, DesktopEntry)>,
    all: Seq<(String, DesktopEntry)>,
    name: Seq<char>,
    index: Seq<(String, usize)>,
)
    requires
        part.len() <= all.len(),
        forall|i: int| 0 <= i < part.len() ==> part[i] == all[i],
        forall|l: int| 0 <= l < index.len() ==> #[trigger] index[l].0@ != name,
        forall|i: int| 0 <= i < index.len() ==> {
            &&& 0 <= #[trigger] index[i].1 < all.len()
            &&& indexed(all, index[i].1 as int)
            &&& index[i].0@ == binary_of(all[index[i].1 as int].1.exec_command@)
        },
        forall|k: int| 0 <= k < all.len() && indexed(all, k) ==> exists|i: int| 0 <= i < index.len() && #[trigger] index[i].1 == k,
    ensures
        by_program(part, all, name).is_none(),
    decreases part.len(),
{
    if part.len() > 0 {
        let k = part.len() - 1;
        if indexed(all, k) && binary_of(all[k].1.exec_command@) == name {
            let i = choose|i: int| 0 <= i < index.len() && #[trigger] index[i].1 == k;
            assert(index[i].0@ == name);
        }
        lemma_by_program_none(part.drop_last(), all, name, index);
    }
}

/// The position of the last entry with the given id.
fn find_by_id(entries: &Vec<(String, DesktopEntry)>, name: &String) -> (r: Option<usize>)
    ensures
        r.is_some() ==> r.unwrap() < entries@.len(),
        match r {
            Some(k) => by_id(entries@, name@) == Some(k as int),
            None => by_id(entries@, name@).is_none(),
        },
{
    let mut j: usize = entries.len();
    proof {
        assert(entries@.take(j as int) =~= entries@);
    }
    while j > 0
        invariant
            j <= entries@.len(),
            by_id(entries@, name@) == by_id(entries@.take(j as int), name@),
        decreases j,
    {
        proof {
            assert(entries@.take(j as int).drop_last() =~= entries@.take(j - 1));
        }
        if same_text(&entries[j - 1].0, name) {
            return Some(j - 1);
        }
        j = j - 1;
    }
    None
}

/// Adds desktop metadata to each package: from the entry whose id is the
/// package name, or else from the entry whose program has the package's
/// name.  Packages that match no entry are left as they are.
pub fn enrich_packages(packages: &mut Vec<PackageInfo>, entries: &Vec<(String, DesktopEntry)>)
    ensures
        final(packages)@.len() == old(packages)@.len(),
        forall|i: int| 0 <= i < old(packages)@.len() ==> enriched(entries@, #[trigger] old(packages)@[i], final(packages)@[i]),
{
    let index = build_exec_index(entries);
    let ghost start = packages@;
    let n = packages.len();
    let mut i: usize = 0;
    while i < n
        invariant
            n == start.len(),
            packages@.len() == n,
            i <= n,
            forall|j: int| 0 <= j < index@.len() ==> {
                &&& 0 <= #[trigger] index@[j].1 < entries@.len()
                &&& indexed(entries@, index@[j].1 as int)
                &&& index@[j].0@ == binary_of(entries@[index@[j].1 as int].1.exec_command@)
            },
            forall|j: int, l: int| 0 <= j < l < index@.len() ==> #[trigger] index@[j].1 < #[trigger] index@[l].1,
            forall|k: int| 0 <= k < entries@.len() && indexed(entries@, k) ==> exists|j: int| 0 <= j < index@.len() && #[trigger] index@[j].1 == k,
            forall|k: int| i <= k < n ==> #[trigger] packages@[k] == start[k],
            forall|k: int| 0 <= k < i ==> enriched(entries@, #[trigger] start[k], packages@[k]),
        decreases n - i,
    {
        let found = match find_by_id(entries, &packages[i].name) {
            Some(k) => Some(k),
            None => find_by_program(&index, entries, &packages[i].name),
        };
        match found {
            Some(k) => {
                apply_entry(&mut packages[i], &entries[k].1);
            },
            None => {},
        }
        i = i + 1;
    }
}

/// The directories whose `.desktop` files enrich the packages: the system
/// directory, Flatpak's exported applications and, when the home directory
/// is known, the user's.  (Snap's per-application directories are added by
/// whoever lists them.)
pub fn enrichment_dirs(home: Option<&str>) -> (r: Vec<String>)
    ensures
        strs(r@) == seq!["/usr/share/applications"@, "/var/lib/flatpak/exports/share/applications"@] + match home {
            Some(h) => seq![joined(h@, ".local/share/applications"@)],
            None => seq![],
        },
{
    let mut r: Vec<String> = Vec::new();
    let a = "/usr/share/applications".to_owned();
    proof {
        lemma_strs_push(r@, a);
    }
    r.push(a);
    let b = "/var/lib/flatpak/exports/share/applications".to_owned();
    proof {
        lemma_strs_push(r@, b);
    }
    r.push(b);
    match home {
        Some(h) => {
            let c = join_path(h, ".local/share/applications");
            proof {
                lemma_strs_push(r@, c);
            }
            r.push(c);
        },
        None => {},
    }
    proof {
        assert(strs(r@) =~= seq!["/usr/share/applications"@, "/var/lib/flatpak/exports/share/applications"@] + match home {
            Some(h) => seq![joined(h@, ".local/share/applications"@)],
            None => seq![],
        });
    }
    r
}

} // verus!
