//! The main window's decisions: what a removal request contains, and the
//! texts of the status bar, the remove button and the confirmation.

use vstd::prelude::*;

use crate::model::dep_tree::{contains_string, selected_size, DependencyTree};
use crate::model::package::{qid, same_info, PackageInfo};
use crate::model::removal_plan::{group_count, grouped, groups_view, size_sum, RemovalPlan};
use crate::text::{dec_text, join, push_decimal, push_str, string_of, strs};
use crate::units::{byte_size_text, format_size};

verus! {

/// The selected ids that name a package of the graph, in selection order.
pub open spec fn present_ids(t: DependencyTree, sel: Seq<Seq<char>>) -> Seq<Seq<char>> {
    sel.filter(|id: Seq<char>| t.has_id(id))
}

/// Whether `p` holds the values of the graph's package with id `id`.
pub open spec fn copy_of_entry(t: DependencyTree, id: Seq<char>, p: PackageInfo) -> bool {
    exists|i: int| 0 <= i < t.len() && #[trigger] t.id_at(i) == id && same_info(p, t.info_at(i))
}

/// Whether `pkgs` are copies of the selected packages of the graph, in
/// selection order (ids that name no package skipped).
pub open spec fn copies_of_selection(t: DependencyTree, sel: Seq<Seq<char>>, pkgs: Seq<PackageInfo>) -> bool {
    &&& pkgs.len() == present_ids(t, sel).len()
    &&& forall|k: int| 0 <= k < pkgs.len() ==> copy_of_entry(t, present_ids(t, sel)[k], #[trigger] pkgs[k])
}

proof fn lemma_size_sum_pointwise(a: Seq<PackageInfo>, b: Seq<PackageInfo>)
    requires
        a.len() == b.len(),
        forall|k: int| 0 <= k < a.len() ==> #[trigger] a[k].installed_size == b[k].installed_size,
    ensures
        size_sum(a) == size_sum(b),
    decreases a.len(),
{
    if a.len() > 0 {
        lemma_size_sum_pointwise(a.drop_last(), b.drop_last());
    }
}

/// Any two copies of a selection take the same space.
proof fn lemma_copies_same_size(t: DependencyTree, sel: Seq<Seq<char>>, a: Seq<PackageInfo>, b: Seq<PackageInfo>)
    requires
        t.wf(),
        copies_of_selection(t, sel, a),
        copies_of_selection(t, sel, b),
    ensures
        size_sum(a) == size_sum(b),
{
    t.lemma_wf();
    let ids = present_ids(t, sel);
    assert forall|k: int| 0 <= k < a.len() implies #[trigger] a[k].installed_size == b[k].installed_size by {
        assert(copy_of_entry(t, ids[k], a[k]));
        assert(copy_of_entry(t, ids[k], b[k]));
        let i = choose|i: int| 0 <= i < t.len() && #[trigger] t.id_at(i) == ids[k] && same_info(a[k], t.info_at(i));
        let j = choose|j: int| 0 <= j < t.len() && #[trigger] t.id_at(j) == ids[k] && same_info(b[k], t.info_at(j));
        if i != j {
            assert(t.id_at(i) != t.id_at(j));
        }
    }
    lemma_size_sum_pointwise(a, b);
}

/// Copies of the selected packages, in selection order; ids that name no
/// package are skipped.
pub fn removal_packages(tree: &DependencyTree, selected: &Vec<String>) -> (r: Vec<PackageInfo>)
    requires
        tree.wf(),
    ensures
        r@.len() == present_ids(*tree, strs(selected@)).len(),
        forall|k: int|
            0 <= k < r@.len() ==> copy_of_entry(*tree, present_ids(*tree, strs(selected@))[k], #[trigger] r@[k]),
        copies_of_selection(*tree, strs(selected@), r@),
{
    let ghost sel = strs(selected@);
    let mut r: Vec<PackageInfo> = Vec::new();
    let mut k: usize = 0;
    proof {
        reveal_with_fuel(Seq::filter, 1);
        assert(present_ids(*tree, sel.take(0)) =~= Seq::<Seq<char>>::empty());
    }
    while k < selected.len()
        invariant
            tree.wf(),
            k <= selected@.len(),
            sel == strs(selected@),
            r@.len() == present_ids(*tree, sel.take(k as int)).len(),
            forall|j: int|
                0 <= j < r@.len() ==> copy_of_entry(*tree, present_ids(*tree, sel.take(k as int))[j], #[trigger] r@[j]),
        decreases selected@.len() - k,
    {
        let ghost pre = present_ids(*tree, sel.take(k as int));
        proof {
            reveal_with_fuel(Seq::filter, 1);
            assert(sel.take(k + 1).drop_last() =~= sel.take(k as int));
            assert(sel.take(k + 1).last() == selected@[k as int]@);
        }
        match tree.get(selected[k].as_str()) {
            Some(p) => {
                let c = p.clone();
                let ghost before = r@;
                r.push(c);
                proof {
                    let post = present_ids(*tree, sel.take(k + 1));
                    assert(tree.has_id(selected@[k as int]@));
                    assert(post == pre.push(selected@[k as int]@));
                    assert forall|j: int|
                        0 <= j < r@.len() implies copy_of_entry(*tree, post[j], #[trigger] r@[j]) by {
                        if j < before.len() {
                            assert(r@[j] == before[j]);
                            assert(post[j] == pre[j]);
                        } else {
                            let i = choose|i: int|
                                0 <= i < tree.len() && #[trigger] tree.id_at(i) == selected@[k as int]@ && *p == tree.info_at(i);
                            assert(r@[j] == c);
                            assert(post[j] == selected@[k as int]@);
                            assert(tree.id_at(i) == post[j] && same_info(r@[j], tree.info_at(i)));
                            assert(copy_of_entry(*tree, post[j], r@[j]));
                        }
                    }
                }
            },
            None => {
                proof {
                    let post = present_ids(*tree, sel.take(k + 1));
                    assert(!tree.has_id(selected@[k as int]@));
                    assert(post =~= pre);
                    assert forall|j: int|
                        0 <= j < r@.len() implies copy_of_entry(*tree, post[j], #[trigger] r@[j]) by {
                        assert(post[j] == pre[j]);
                    }
                }
            },
        }
        k = k + 1;
    }
    proof {
        assert(sel.take(sel.len() as int) =~= sel);
        assert(sel == strs(selected@));
        let fin = present_ids(*tree, sel);
        assert forall|j: int|
            0 <= j < r@.len() implies copy_of_entry(*tree, present_ids(*tree, strs(selected@))[j], #[trigger] r@[j]) by {
            assert(present_ids(*tree, sel.take(sel.len() as int))[j] == fin[j]);
        }
    }
    r
}

/// The total size of a list of packages; `None` when it does not fit in 64
/// bits.
pub fn checked_size_sum(pkgs: &Vec<PackageInfo>) -> (r: Option<u64>)
    ensures
        match r {
            Some(s) => s == size_sum(pkgs@),
            None => size_sum(pkgs@) > u64::MAX,
        },
{
    let mut total: u64 = 0;
    let mut i: usize = 0;
    while i < pkgs.len()
        invariant
            i <= pkgs@.len(),
            total == size_sum(pkgs@.take(i as int)),
        decreases pkgs@.len() - i,
    {
        proof {
            assert(pkgs@.take(i + 1).drop_last() =~= pkgs@.take(i as int));
        }
        match total.checked_add(pkgs[i].installed_size) {
            Some(t) => {
                total = t;
            },
            None => {
                proof {
                    lemma_size_sum_grows(pkgs@, i + 1);
                }
                return None;
            },
        }
        i = i + 1;
    }
    proof {
        assert(pkgs@.take(pkgs@.len() as int) =~= pkgs@);
    }
    Some(total)
}

proof fn lemma_size_sum_grows(pkgs: Seq<PackageInfo>, k: int)
    requires
        0 <= k <= pkgs.len(),
    ensures
        size_sum(pkgs.take(k)) <= size_sum(pkgs),
    decreases pkgs.len() - k,
{
    if k < pkgs.len() {
        lemma_size_sum_grows(pkgs, k + 1);
        assert(pkgs.take(k + 1).drop_last() =~= pkgs.take(k));
    } else {
        assert(pkgs.take(k) =~= pkgs);
    }
}

/// The removal plan of the selected packages: copies of them grouped by
/// source; `None` when their total size does not fit in 64 bits.
pub fn removal_plan(tree: &DependencyTree, selected: &Vec<String>) -> (r: Option<RemovalPlan>)
    requires
        tree.wf(),
    ensures
        match r {
            Some(plan) => {
                &&& group_count(groups_view(plan.groups@)) == present_ids(*tree, strs(selected@)).len()
                &&& exists|pkgs: Seq<PackageInfo>| #[trigger] copies_of_selection(*tree, strs(selected@), pkgs) && grouped(pkgs, plan)
            },
            None => forall|pkgs: Seq<PackageInfo>| #[trigger] copies_of_selection(*tree, strs(selected@), pkgs) ==> size_sum(pkgs) > u64::MAX,
        },
{
    let pkgs = removal_packages(tree, selected);
    let ghost copies = pkgs@;
    match checked_size_sum(&pkgs) {
        Some(_) => {
            let plan = RemovalPlan::from_packages(pkgs);
            proof {
                assert(copies_of_selection(*tree, strs(selected@), copies) && grouped(copies, plan));
            }
            Some(plan)
        },
        None => {
            proof {
                assert forall|other: Seq<PackageInfo>| #[trigger] copies_of_selection(*tree, strs(selected@), other) implies size_sum(other) > u64::MAX by {
                    lemma_copies_same_size(*tree, strs(selected@), copies, other);
                }
            }
            None
        },
    }
}

/// The total size of the packages whose ids are selected; `None` when it
/// does not fit in 64 bits.
pub fn checked_selected_size(tree: &DependencyTree, ids: &Vec<String>) -> (r: Option<u64>)
    ensures
        match r {
            Some(s) => s == selected_size(tree.infos(), strs(ids@)),
            None => selected_size(tree.infos(), strs(ids@)) > u64::MAX,
        },
{
    let pkgs = tree.all_packages();
    let ghost sel = strs(ids@);
    let mut total: u64 = 0;
    let mut i: usize = 0;
    while i < pkgs.len()
        invariant
            pkgs@ == tree.infos(),
            i <= pkgs@.len(),
            sel == strs(ids@),
            total == selected_size(pkgs@.take(i as int), sel),
        decreases pkgs@.len() - i,
    {
        proof {
            assert(pkgs@.take(i + 1).drop_last() =~= pkgs@.take(i as int));
            assert(pkgs@.take(i + 1).last() == pkgs@[i as int]);
        }
        let id = pkgs[i].qualified_id();
        if contains_string(ids, &id) {
            match total.checked_add(pkgs[i].installed_size) {
                Some(t) => {
                    total = t;
                },
                None => {
                    proof {
                        lemma_selected_size_grows(pkgs@, sel, i + 1);
                    }
                    return None;
                },
            }
        }
        i = i + 1;
    }
    proof {
        assert(pkgs@.take(pkgs@.len() as int) =~= pkgs@);
    }
    Some(total)
}

proof fn lemma_selected_size_grows(pkgs: Seq<PackageInfo>, sel: Seq<Seq<char>>, k: int)
    requires
        0 <= k <= pkgs.len(),
    ensures
        selected_size(pkgs.take(k), sel) <= selected_size(pkgs, sel),
    decreases pkgs.len() - k,
{
    if k < pkgs.len() {
        lemma_selected_size_grows(pkgs, sel, k + 1);
        assert(pkgs.take(k + 1).drop_last() =~= pkgs.take(k));
    } else {
        assert(pkgs.take(k) =~= pkgs);
    }
}

/// `"Remove (<n>)"`.
pub fn remove_button_label(count: usize) -> (r: String)
    ensures
        r@ == "Remove ("@ + dec_text(count as nat) + ")"@,
{
    let mut v: Vec<char> = Vec::new();
    push_str(&mut v, "Remove (");
    push_decimal(&mut v, count as u64);
    push_str(&mut v, ")");
    string_of(&v)
}

/// The status bar for a selection of `count` packages of `size` bytes.
pub fn selection_status(count: usize, size: u64) -> (r: String)
    ensures
        r@ == if count > 0 {
            "Selected: "@ + dec_text(count as nat) + " packages | Total: "@ + byte_size_text(size) + " freed"@
        } else {
            "Ready"@
        },
{
    if count == 0 {
        return "Ready".to_owned();
    }
    let mut v: Vec<char> = Vec::new();
    push_str(&mut v, "Selected: ");
    push_decimal(&mut v, count as u64);
    push_str(&mut v, " packages | Total: ");
    let s = format_size(size);
    push_str(&mut v, s.as_str());
    push_str(&mut v, " freed");
    string_of(&v)
}

/// The heading of the confirmation: `"Remove <n> package(s)?"`.
pub fn confirm_heading(count: usize) -> (r: String)
    ensures
        r@ == "Remove "@ + dec_text(count as nat) + " package(s)?"@,
{
    let mut v: Vec<char> = Vec::new();
    push_str(&mut v, "Remove ");
    push_decimal(&mut v, count as u64);
    push_str(&mut v, " package(s)?");
    string_of(&v)
}

/// The body of the confirmation: `"This will free approximately <size>."`.
pub fn confirm_body(size: u64) -> (r: String)
    ensures
        r@ == "This will free approximately "@ + byte_size_text(size) + "."@,
{
    let mut v: Vec<char> = Vec::new();
    push_str(&mut v, "This will free approximately ");
    let s = format_size(size);
    push_str(&mut v, s.as_str());
    push_str(&mut v, ".");
    string_of(&v)
}

/// The details of the confirmation: the plan's summary lines, one per line.
pub fn confirm_details(plan: &RemovalPlan) -> (r: String)
    requires
        group_count(groups_view(plan.groups@)) <= usize::MAX,
    ensures
        r@ == join(
            crate::model::removal_plan::group_lines(groups_view(plan.groups@)).push(
                crate::model::removal_plan::total_line(group_count(groups_view(plan.groups@)) as nat, plan.total_size),
            ),
            "\n"@,
        ),
{
    let lines = plan.summary_lines();
    string_of(&crate::text::join_strings(&lines, "\n"))
}

/// The status after a removal run: a rescan follows a successful one.
pub fn removal_status(success: bool) -> (r: &'static str)
    ensures
        r@ == if success {
            "Removal complete. Re-scanning..."@
        } else {
            "Removal finished with errors"@
        },
{
    if success {
        "Removal complete. Re-scanning..."
    } else {
        "Removal finished with errors"
    }
}

/// The heading of the progress page when a removal run ends.
pub fn progress_complete_text(success: bool) -> (r: &'static str)
    ensures
        r@ == if success {
            "Removal complete"@
        } else {
            "Removal finished with errors"@
        },
{
    if success {
        "Removal complete"
    } else {
        "Removal finished with errors"
    }
}

} // verus!
