//! Putting a scan together: the order of the scanners, progress steps,
//! counting packages per source, and the final dependency graph.
//!
//! The scanners themselves run in the caller, which reports each step and
//! hands the packages found to [`finish_scan`].

use vstd::prelude::*;

use crate::model::dep_tree::{built_from, protection_marked, DependencyTree};
use crate::model::package::{same_info, PackageInfo};
use crate::model::package_source::PackageSource;
use crate::scanner::ScanError;
use crate::text::{dec_text, lemma_strs_push, push_decimal, push_str, string_of, strs};

verus! {

/// The package manager scanners run first, in order; after them come the
/// enrichment with desktop metadata and the desktop entry scanner.
pub open spec fn scanner_order() -> Seq<PackageSource> {
    seq![PackageSource::Pacman, PackageSource::Flatpak, PackageSource::AppImage]
}

/// The sources of the package manager scanners, in the order they run.
pub fn scanner_sources() -> (r: Vec<PackageSource>)
    ensures
        r@ == scanner_order(),
{
    let r = vec![PackageSource::Pacman, PackageSource::Flatpak, PackageSource::AppImage];
    proof {
        assert(r@ =~= scanner_order());
    }
    r
}

/// The number of progress steps of a scan with `scanners` package manager
/// scanners: one each, plus the enrichment and the desktop entry scanner.
pub fn total_steps(scanners: usize) -> (r: usize)
    requires
        scanners + 2 <= usize::MAX,
    ensures
        r == scanners + 2,
{
    scanners + 2
}

/// How many of the packages come from `s`.
pub open spec fn count_from(pkgs: Seq<PackageInfo>, s: PackageSource) -> nat {
    pkgs.filter(|p: PackageInfo| p.source == s).len()
}

/// Whether the counts have an entry for `s`.
pub open spec fn has_source(counts: Seq<(PackageSource, usize)>, s: PackageSource) -> bool {
    exists|a: int| 0 <= a < counts.len() && #[trigger] counts[a].0 == s
}

/// The number of packages per source: one entry for each source that
/// occurs, in order of first occurrence.
pub fn source_counts(pkgs: &Vec<PackageInfo>) -> (r: Vec<(PackageSource, usize)>)
    ensures
        forall|a: int, b: int| 0 <= a < b < r@.len() ==> #[trigger] r@[a].0 != #[trigger] r@[b].0,
        forall|a: int| 0 <= a < r@.len() ==> #[trigger] r@[a].1 == count_from(pkgs@, r@[a].0),
        forall|a: int| 0 <= a < r@.len() ==> #[trigger] r@[a].1 > 0,
        forall|i: int| 0 <= i < pkgs@.len() ==> has_source(r@, #[trigger] pkgs@[i].source),
{
    let mut r: Vec<(PackageSource, usize)> = Vec::new();
    let mut i: usize = 0;
    while i < pkgs.len()
        invariant
            i <= pkgs@.len(),
            forall|a: int, b: int| 0 <= a < b < r@.len() ==> #[trigger] r@[a].0 != #[trigger] r@[b].0,
            forall|a: int| 0 <= a < r@.len() ==> #[trigger] r@[a].1 == count_from(pkgs@.take(i as int), r@[a].0),
            forall|a: int| 0 <= a < r@.len() ==> #[trigger] r@[a].1 > 0,
            forall|k: int| 0 <= k < i ==> has_source(r@, #[trigger] pkgs@[k].source),
            forall|s: PackageSource| #[trigger] count_from(pkgs@.take(i as int), s) > 0 ==> has_source(r@, s),
        decreases pkgs@.len() - i,
    {
        let src = pkgs[i].source;
        let ghost pre = pkgs@.take(i as int);
        let ghost post = pkgs@.take(i + 1);
        proof {
            reveal_with_fuel(Seq::filter, 1);
            assert(post.drop_last() =~= pre);
            assert(post.last() == pkgs@[i as int]);
            assert forall|s: PackageSource| #[trigger] count_from(post, s) == count_from(pre, s) + if s == src {
                1nat
            } else {
                0nat
            } by {
                reveal_with_fuel(Seq::filter, 1);
            }
        }
        let mut a: usize = 0;
        while a < r.len() && r[a].0 != src
            invariant
                a <= r@.len(),
                forall|b: int| 0 <= b < a ==> r@[b].0 != src,
            decreases r@.len() - a,
        {
            a = a + 1;
        }
        let ghost before = r@;
        if a < r.len() {
            let c = r[a].1;
            proof {
                assert(r@[a as int].1 == count_from(pre, src));
                pre.lemma_filter_len(|p: PackageInfo| p.source == src);
                assert(count_from(pre, src) <= pre.len());
            }
            r.set(a, (src, c + 1));
        } else {
            proof {
                if count_from(pre, src) > 0 {
                    let b = choose|b: int| 0 <= b < r@.len() && #[trigger] r@[b].0 == src;
                    assert(false);
                }
            }
            r.push((src, 1));
        }
        proof {
            assert forall|b: int| 0 <= b < r@.len() implies #[trigger] r@[b].1 == count_from(post, r@[b].0) && r@[b].1 > 0 by {
                if b < before.len() && b != a {
                    assert(r@[b] == before[b]);
                }
            }
            assert forall|x: int, y: int| 0 <= x < y < r@.len() implies #[trigger] r@[x].0 != #[trigger] r@[y].0 by {
                if x < before.len() && y < before.len() {
                    if x != a && y != a {
                        assert(before[x].0 != before[y].0);
                    } else if x == a {
                        assert(before[y].0 != src || y == a);
                    } else {
                        assert(before[x].0 != src || x == a);
                    }
                }
            }
            assert forall|k: int| 0 <= k < i + 1 implies has_source(r@, #[trigger] pkgs@[k].source) by {
                if k < i {
                    let b = choose|b: int| 0 <= b < before.len() && #[trigger] before[b].0 == pkgs@[k].source;
                    assert(r@[b].0 == before[b].0);
                } else {
                    assert(r@[a as int].0 == src);
                }
            }
            assert forall|s: PackageSource| #[trigger] count_from(post, s) > 0 implies has_source(r@, s) by {
                assert(count_from(post, s) == count_from(pre, s) + if s == src { 1nat } else { 0nat });
                if s == src {
                    assert(r@[a as int].0 == src);
                } else {
                    let b = choose|b: int| 0 <= b < before.len() && #[trigger] before[b].0 == s;
                    assert(r@[b].0 == before[b].0);
                }
            }
        }
        i = i + 1;
    }
    proof {
        assert(pkgs@.take(pkgs@.len() as int) =~= pkgs@);
    }
    r
}

/// The outcome of a full scan.
pub struct ScanResult {
    /// Everything found, in the order the scanners found it.
    pub packages: Vec<PackageInfo>,
    /// The dependency graph of those packages, with the system's core
    /// packages protected from removal.
    pub dep_tree: DependencyTree,
    /// The number of packages per source.
    pub source_counts: Vec<(PackageSource, usize)>,
    /// The scanners' error messages.
    pub errors: Vec<String>,
}

fn clone_packages(v: &Vec<PackageInfo>) -> (r: Vec<PackageInfo>)
    ensures
        r@.len() == v@.len(),
        forall|i: int| 0 <= i < v@.len() ==> same_info(#[trigger] r@[i], v@[i]),
{
    let mut r: Vec<PackageInfo> = Vec::new();
    let mut i: usize = 0;
    while i < v.len()
        invariant
            i <= v@.len(),
            r@.len() == i,
            forall|k: int| 0 <= k < i ==> same_info(#[trigger] r@[k], v@[k]),
        decreases v@.len() - i,
    {
        r.push(v[i].clone());
        i = i + 1;
    }
    r
}

/// Completes a scan: counts the packages per source, builds their
/// dependency graph and protects the packages named in `protected`.
pub fn finish_scan(packages: Vec<PackageInfo>, protected: &Vec<String>, errors: Vec<String>) -> (r: ScanResult)
    ensures
        r.packages@.len() == packages@.len(),
        forall|i: int| 0 <= i < packages@.len() ==> same_info(#[trigger] r.packages@[i], packages@[i]),
        r.dep_tree.wf(),
        exists|t: DependencyTree| #[trigger] built_from(t, packages@) && t.wf() && protection_marked(t, r.dep_tree, strs(protected@)),
        forall|a: int, b: int| 0 <= a < b < r.source_counts@.len() ==> #[trigger] r.source_counts@[a].0 != #[trigger] r.source_counts@[b].0,
        forall|a: int| 0 <= a < r.source_counts@.len() ==> #[trigger] r.source_counts@[a].1 == count_from(packages@, r.source_counts@[a].0),
        forall|a: int| 0 <= a < r.source_counts@.len() ==> #[trigger] r.source_counts@[a].1 > 0,
        forall|i: int| 0 <= i < packages@.len() ==> has_source(r.source_counts@, #[trigger] packages@[i].source),
        r.errors == errors,
{
    let counts = source_counts(&packages);
    let kept = clone_packages(&packages);
    let ghost pk = packages@;
    let mut tree = DependencyTree::build(packages);
    let ghost t0 = tree;
    tree.mark_protected(protected);
    proof {
        assert(built_from(t0, pk) && t0.wf() && protection_marked(t0, tree, strs(protected@)));
    }
    ScanResult { packages: kept, dep_tree: tree, source_counts: counts, errors }
}

/// `"Scanning: <label>..."`, shown when a scanner starts.
pub fn starting_text(label: &str) -> (r: String)
    ensures
        r@ == "Scanning: "@ + label@ + "..."@,
{
    let mut v: Vec<char> = Vec::new();
    push_str(&mut v, "Scanning: ");
    push_str(&mut v, label);
    push_str(&mut v, "...");
    string_of(&v)
}

/// `"<label> — <n> packages found"` for the progress line and
/// `"<label> done — <n> packages found so far"` for the status bar, shown
/// when a scanner finishes.
pub fn done_texts(label: &str, total_so_far: usize) -> (r: (String, String))
    ensures
        r.0@ == label@ + " — "@ + dec_text(total_so_far as nat) + " packages found"@,
        r.1@ == label@ + " done — "@ + dec_text(total_so_far as nat) + " packages found so far"@,
{
    let mut a: Vec<char> = Vec::new();
    push_str(&mut a, label);
    push_str(&mut a, " — ");
    push_decimal(&mut a, total_so_far as u64);
    push_str(&mut a, " packages found");
    let mut b: Vec<char> = Vec::new();
    push_str(&mut b, label);
    push_str(&mut b, " done — ");
    push_decimal(&mut b, total_so_far as u64);
    push_str(&mut b, " packages found so far");
    (string_of(&a), string_of(&b))
}

/// `"<n> packages scanned"`, shown when the scan is complete.
pub fn complete_text(count: usize) -> (r: String)
    ensures
        r@ == dec_text(count as nat) + " packages scanned"@,
{
    let mut v: Vec<char> = Vec::new();
    push_decimal(&mut v, count as u64);
    push_str(&mut v, " packages scanned");
    string_of(&v)
}

/// What a scan has gathered so far, and which progress step it is at.
pub struct ScanRun {
    /// The packages found, in the order the scanners found them.
    pub packages: Vec<PackageInfo>,
    /// The scanners' error messages, in order.
    pub errors: Vec<String>,
    /// The current progress step.
    pub step: usize,
    /// The number of progress steps.
    pub total: usize,
}

/// What is reported when a scanner ends.
pub enum ScanNotice {
    /// The scanner succeeded; the number of packages found so far.
    Done { label: String, total_so_far: usize },
    /// The scanner failed, with this message.
    Failed { message: String },
}

/// A scanner error as shown: `"[<source>] <message>"`.
pub open spec fn error_text(e: ScanError) -> Seq<char> {
    "["@ + e.source@ + "] "@ + e.message@
}

impl ScanRun {
    /// A scan with `scanners` package manager scanners that has found
    /// nothing yet.
    pub fn new(scanners: usize) -> (r: Self)
        requires
            scanners + 2 <= usize::MAX,
        ensures
            r.packages@.len() == 0,
            r.errors@.len() == 0,
            r.step == 0,
            r.total == scanners + 2,
    {
        ScanRun { packages: Vec::new(), errors: Vec::new(), step: 0, total: total_steps(scanners) }
    }

    /// Moves to the next step without anything found (a scanner that is not
    /// available, or the enrichment).
    pub fn skip(&mut self)
        requires
            old(self).step < usize::MAX,
        ensures
            final(self).step == old(self).step + 1,
            final(self).total == old(self).total,
            final(self).packages@ == old(self).packages@,
            final(self).errors@ == old(self).errors@,
    {
        self.step = self.step + 1;
    }

    /// Records how the scanner `label` ended and moves to the next step:
    /// its packages are added after those found so far, or its error is
    /// kept.
    pub fn record(&mut self, label: &str, outcome: Result<Vec<PackageInfo>, ScanError>) -> (n: ScanNotice)
        requires
            old(self).step < usize::MAX,
        ensures
            final(self).step == old(self).step + 1,
            final(self).total == old(self).total,
            match outcome {
                Ok(found) => {
                    &&& final(self).packages@ == old(self).packages@ + found@
                    &&& final(self).errors@ == old(self).errors@
                    &&& n matches ScanNotice::Done { label: l, total_so_far: c } && l@ == label@ && c
                        == final(self).packages@.len()
                },
                Err(e) => {
                    &&& final(self).packages@ == old(self).packages@
                    &&& strs(final(self).errors@) == strs(old(self).errors@).push(error_text(e))
                    &&& n matches ScanNotice::Failed { message: m } && m@ == error_text(e)
                },
            },
    {
        self.step = self.step + 1;
        match outcome {
            Ok(found) => {
                let mut found = found;
                self.packages.append(&mut found);
                ScanNotice::Done { label: label.to_owned(), total_so_far: self.packages.len() }
            },
            Err(e) => {
                let message = e.text();
                let kept = message.clone();
                proof {
                    lemma_strs_push(self.errors@, kept);
                }
                self.errors.push(kept);
                ScanNotice::Failed { message }
            },
        }
    }

    /// Completes the scan: see [`finish_scan`].
    pub fn finish(self, protected: &Vec<String>) -> (r: ScanResult)
        ensures
            r.packages@.len() == self.packages@.len(),
            forall|i: int| 0 <= i < self.packages@.len() ==> same_info(#[trigger] r.packages@[i], self.packages@[i]),
            r.dep_tree.wf(),
            exists|t: DependencyTree| #[trigger] built_from(t, self.packages@) && t.wf() && protection_marked(t, r.dep_tree, strs(protected@)),
            forall|a: int, b: int| 0 <= a < b < r.source_counts@.len() ==> #[trigger] r.source_counts@[a].0 != #[trigger] r.source_counts@[b].0,
            forall|a: int| 0 <= a < r.source_counts@.len() ==> #[trigger] r.source_counts@[a].1 == count_from(self.packages@, r.source_counts@[a].0),
            forall|a: int| 0 <= a < r.source_counts@.len() ==> #[trigger] r.source_counts@[a].1 > 0,
            forall|i: int| 0 <= i < self.packages@.len() ==> has_source(r.source_counts@, #[trigger] self.packages@[i].source),
            r.errors == self.errors,
    {
        finish_scan(self.packages, protected, self.errors)
    }
}

} // verus!
