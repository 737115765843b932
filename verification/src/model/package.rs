//! The record kept for every installed package.

use vstd::prelude::*;

use crate::model::package_source::{lemma_prefixes_distinct, prefix_text, PackageSource};
use crate::text::{chars_of, push_str, string_of, strs};

verus! {

/// Everything known about one installed package.
#[derive(Debug)]
pub struct PackageInfo {
    pub id: String,
    pub name: String,
    pub display_name: String,
    pub version: String,
    pub description: String,
    pub categories: Vec<String>,
    pub icon_name: Option<String>,
    pub source: PackageSource,
    pub installed_size: u64,
    pub depends: Vec<String>,
    pub required_by: Vec<String>,
    pub provides: Vec<String>,
    pub is_explicit: bool,
    pub is_protected: bool,
    pub install_path: Option<String>,
    pub install_date: Option<i64>,
}

/// `"<source prefix>:<name>"`.
pub open spec fn qualified_id_of(source: PackageSource, name: Seq<char>) -> Seq<char> {
    prefix_text(source) + ":"@ + name
}

/// Qualified ids never collide: two packages have the same qualified id
/// only when they come from the same source and have the same name.
pub proof fn lemma_qualified_ids_distinct(s1: PackageSource, n1: Seq<char>, s2: PackageSource, n2: Seq<char>)
    requires
        qualified_id_of(s1, n1) == qualified_id_of(s2, n2),
    ensures
        s1 == s2,
        n1 == n2,
{
    let p1 = prefix_text(s1);
    let p2 = prefix_text(s2);
    let q = qualified_id_of(s1, n1);
    reveal_strlit(":");
    assert(q =~= p1 + seq![':'] + n1);
    assert(q =~= p2 + seq![':'] + n2);
    lemma_prefixes_distinct(s1, s2);
    lemma_prefixes_distinct(s2, s1);
    if p1.len() < p2.len() {
        assert(q[p1.len() as int] == ':');
        assert(q[p1.len() as int] == p2[p1.len() as int]);
        assert(p2.contains(':'));
    } else if p2.len() < p1.len() {
        assert(q[p2.len() as int] == ':');
        assert(q[p2.len() as int] == p1[p2.len() as int]);
        assert(p1.contains(':'));
    } else {
        assert(p1 =~= q.take(p1.len() as int));
        assert(p2 =~= q.take(p2.len() as int));
        assert(n1 =~= q.skip(p1.len() as int + 1));
        assert(n2 =~= q.skip(p2.len() as int + 1));
    }
}

/// The id under which a package is known in the dependency graph.
pub open spec fn qid(p: PackageInfo) -> Seq<char> {
    qualified_id_of(p.source, p.name@)
}

/// The name shown to the user: the display name, or the package name when
/// there is none.
pub open spec fn shown_name(p: PackageInfo) -> Seq<char> {
    if p.display_name@.len() == 0 {
        p.name@
    } else {
        p.display_name@
    }
}

/// The records behind a sequence of references.
pub open spec fn derefs(s: Seq<&PackageInfo>) -> Seq<PackageInfo> {
    s.map_values(|p: &PackageInfo| *p)
}

/// Two records that hold the same values, field by field.
pub open spec fn same_info(a: PackageInfo, b: PackageInfo) -> bool {
    &&& a.id@ == b.id@
    &&& a.name@ == b.name@
    &&& a.display_name@ == b.display_name@
    &&& a.version@ == b.version@
    &&& a.description@ == b.description@
    &&& strs(a.categories@) == strs(b.categories@)
    &&& a.icon_name == b.icon_name
    &&& a.source == b.source
    &&& a.installed_size == b.installed_size
    &&& strs(a.depends@) == strs(b.depends@)
    &&& strs(a.required_by@) == strs(b.required_by@)
    &&& strs(a.provides@) == strs(b.provides@)
    &&& a.is_explicit == b.is_explicit
    &&& a.is_protected == b.is_protected
    &&& a.install_path == b.install_path
    &&& a.install_date == b.install_date
}

/// Builds `"<prefix>:<name>"` for a source and a name.
pub fn make_qualified_id(source: PackageSource, name: &str) -> (r: String)
    ensures
        r@ == qualified_id_of(source, name@),
{
    let mut v: Vec<char> = Vec::new();
    push_str(&mut v, source.prefix());
    push_str(&mut v, ":");
    push_str(&mut v, name);
    proof {
        assert(v@ =~= qualified_id_of(source, name@));
    }
    string_of(&v)
}

/// A copy of a list of strings.
pub fn clone_strings(v: &Vec<String>) -> (r: Vec<String>)
    ensures
        r@ == v@,
{
    let mut r: Vec<String> = Vec::new();
    let mut i: usize = 0;
    while i < v.len()
        invariant
            i <= v.len(),
            r@ == v@.take(i as int),
        decreases v.len() - i,
    {
        r.push(v[i].clone());
        i = i + 1;
        proof {
            assert(r@ =~= v@.take(i as int));
        }
    }
    proof {
        assert(v@.take(v@.len() as int) =~= v@);
    }
    r
}

/// A copy of an optional string.
pub fn clone_opt_string(v: &Option<String>) -> (r: Option<String>)
    ensures
        r == *v,
{
    match v {
        Some(s) => Some(s.clone()),
        None => None,
    }
}

impl Clone for PackageInfo {
    fn clone(&self) -> (r: Self)
        ensures
            same_info(r, *self),
    {
        PackageInfo {
            id: self.id.clone(),
            name: self.name.clone(),
            display_name: self.display_name.clone(),
            version: self.version.clone(),
            description: self.description.clone(),
            categories: clone_strings(&self.categories),
            icon_name: clone_opt_string(&self.icon_name),
            source: self.source,
            installed_size: self.installed_size,
            depends: clone_strings(&self.depends),
            required_by: clone_strings(&self.required_by),
            provides: clone_strings(&self.provides),
            is_explicit: self.is_explicit,
            is_protected: self.is_protected,
            install_path: clone_opt_string(&self.install_path),
            install_date: self.install_date,
        }
    }
}

impl PackageInfo {
    /// `"<source prefix>:<name>"`, the id used throughout the graph.
    pub fn qualified_id(&self) -> (r: String)
        ensures
            r@ == qid(*self),
    {
        make_qualified_id(self.source, self.name.as_str())
    }

    /// The display name, or the package name when the display name is empty.
    pub fn display_label(&self) -> (r: String)
        ensures
            r@ == shown_name(*self),
    {
        if self.display_name.as_str().is_empty() {
            self.name.clone()
        } else {
            self.display_name.clone()
        }
    }
}

} // verus!
