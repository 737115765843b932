//! The texts of the details popover of a graph node.

use vstd::prelude::*;

use crate::model::package::PackageInfo;
use crate::model::package_source::label_text;
use crate::text::{dec_text, join, join_strings, push_all, push_decimal, push_str, string_of, strs};
use crate::units::{byte_size_text, format_size};

verus! {

/// At most this many related packages are named.
pub const LISTED: usize = 10;

/// `"Source: <source> | Size: <size>"`.
pub fn source_size_text(p: &PackageInfo) -> (r: String)
    ensures
        r@ == "Source: "@ + label_text(p.source) + " | Size: "@ + byte_size_text(p.installed_size),
{
    let mut v: Vec<char> = Vec::new();
    push_str(&mut v, "Source: ");
    push_str(&mut v, p.source.label());
    push_str(&mut v, " | Size: ");
    let size = format_size(p.installed_size);
    push_str(&mut v, size.as_str());
    string_of(&v)
}

/// `"Categories: <c1>, <c2>, ..."`, when the package has categories.
pub fn categories_text(p: &PackageInfo) -> (r: Option<String>)
    ensures
        match r {
            Some(s) => p.categories@.len() > 0 && s@ == "Categories: "@ + join(strs(p.categories@), ", "@),
            None => p.categories@.len() == 0,
        },
{
    if p.categories.len() == 0 {
        return None;
    }
    let mut v: Vec<char> = Vec::new();
    push_str(&mut v, "Categories: ");
    let j = join_strings(&p.categories, ", ");
    push_all(&mut v, &j);
    Some(string_of(&v))
}

/// The names shown for a list of related packages: the first ten joined
/// by `", "`, and `" (+<n> more)"` for the rest.
pub open spec fn related_list(names: Seq<Seq<char>>) -> Seq<char> {
    if names.len() > LISTED {
        join(names.take(LISTED as int), ", "@) + " (+"@ + dec_text((names.len() - LISTED) as nat) + " more)"@
    } else {
        join(names, ", "@)
    }
}

/// `prefix` followed by the related names, when there are any (used with
/// `"Depends on: "` and `"Required by: "`).
pub fn related_text(prefix: &str, names: &Vec<String>) -> (r: Option<String>)
    ensures
        match r {
            Some(s) => names@.len() > 0 && s@ == prefix@ + related_list(strs(names@)),
            None => names@.len() == 0,
        },
{
    if names.len() == 0 {
        return None;
    }
    let mut shown: Vec<String> = Vec::new();
    let mut i: usize = 0;
    while i < names.len() && i < LISTED
        invariant
            i <= names@.len(),
            i <= LISTED,
            strs(shown@) == strs(names@).take(i as int),
        decreases names@.len() - i,
    {
        let s = names[i].clone();
        proof {
            crate::text::lemma_strs_push(shown@, s);
            assert(strs(names@).take(i + 1) =~= strs(names@).take(i as int).push(names@[i as int]@));
        }
        shown.push(s);
        i = i + 1;
    }
    let mut v: Vec<char> = Vec::new();
    push_str(&mut v, prefix);
    let j = join_strings(&shown, ", ");
    push_all(&mut v, &j);
    if names.len() > LISTED {
        push_str(&mut v, " (+");
        push_decimal(&mut v, (names.len() - LISTED) as u64);
        push_str(&mut v, " more)");
    } else {
        proof {
            assert(strs(names@).take(i as int) =~= strs(names@));
        }
    }
    Some(string_of(&v))
}

/// The names of a list of packages.
pub fn package_names(pkgs: &Vec<&PackageInfo>) -> (r: Vec<String>)
    ensures
        strs(r@) == pkgs@.map_values(|p: &PackageInfo| p.name@),
{
    let mut r: Vec<String> = Vec::new();
    let mut i: usize = 0;
    while i < pkgs.len()
        invariant
            i <= pkgs@.len(),
            strs(r@) == pkgs@.take(i as int).map_values(|p: &PackageInfo| p.name@),
        decreases pkgs@.len() - i,
    {
        let s = pkgs[i].name.clone();
        proof {
            crate::text::lemma_strs_push(r@, s);
            assert(pkgs@.take(i + 1).map_values(|p: &PackageInfo| p.name@) =~= pkgs@.take(i as int).map_values(
                |p: &PackageInfo| p.name@,
            ).push(s@));
        }
        r.push(s);
        i = i + 1;
    }
    proof {
        assert(pkgs@.take(pkgs@.len() as int) =~= pkgs@);
    }
    r
}

} // verus!
