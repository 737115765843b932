//! The decisions of the maintenance page: grouping the tasks, totals, and
//! running the checked cleanups (commands for root in one authorised
//! script, the others one by one) and reporting how they went.

use vstd::prelude::*;

use crate::scanner::maintenance::MaintenanceItem;
use crate::text::{
    chars_of, contains_chars, contains_seq, copy_range, dec_text, has_prefix, join, push_decimal, push_str,
    starts_with, string_of, strs,
};
use crate::units::{byte_size_text, format_size};

verus! {

/// Whether item `i` opens a new category heading: its category differs
/// from the previous item's (from the empty text for the first item).
pub open spec fn opens_group(items: Seq<MaintenanceItem>, i: int) -> bool {
    items[i].category@ != if i == 0 {
        Seq::<char>::empty()
    } else {
        items[i - 1].category@
    }
}

/// For each item, whether a category heading goes before it.
pub fn group_headings(items: &Vec<MaintenanceItem>) -> (r: Vec<bool>)
    ensures
        r@.len() == items@.len(),
        forall|i: int| 0 <= i < items@.len() ==> #[trigger] r@[i] == opens_group(items@, i),
{
    let mut r: Vec<bool> = Vec::new();
    let mut i: usize = 0;
    while i < items.len()
        invariant
            i <= items@.len(),
            r@.len() == i,
            forall|k: int| 0 <= k < i ==> #[trigger] r@[k] == opens_group(items@, k),
        decreases items@.len() - i,
    {
        let prev: &str = if i == 0 {
            ""
        } else {
            items[i - 1].category
        };
        proof {
            if i == 0 {
                reveal_strlit("");
                assert(prev@ =~= Seq::<char>::empty());
            } else {
                assert(prev@ == items@[i - 1].category@);
            }
        }
        let b = !crate::text::str_eq(items[i].category, prev);
        proof {
            assert(b == opens_group(items@, i as int));
        }
        r.push(b);
        i = i + 1;
    }
    r
}

/// The sum of the sizes of the items.
pub open spec fn items_size(items: Seq<MaintenanceItem>) -> int
    decreases items.len(),
{
    if items.len() == 0 {
        0
    } else {
        items_size(items.drop_last()) + items.last().size
    }
}

/// The checked items.
pub open spec fn checked_items(items: Seq<MaintenanceItem>) -> Seq<MaintenanceItem> {
    items.filter(|i: MaintenanceItem| i.checked)
}

/// The total size of the items; `None` when it does not fit in 64 bits.
pub fn total_size(items: &Vec<MaintenanceItem>) -> (r: Option<u64>)
    ensures
        match r {
            Some(s) => s == items_size(items@),
            None => items_size(items@) > u64::MAX,
        },
{
    let mut total: u64 = 0;
    let mut i: usize = 0;
    while i < items.len()
        invariant
            i <= items@.len(),
            total == items_size(items@.take(i as int)),
        decreases items@.len() - i,
    {
        proof {
            assert(items@.take(i + 1).drop_last() =~= items@.take(i as int));
        }
        match total.checked_add(items[i].size) {
            Some(t) => {
                total = t;
            },
            None => {
                proof {
                    lemma_items_size_prefix(items@, i + 1);
                }
                return None;
            },
        }
        i = i + 1;
    }
    proof {
        assert(items@.take(items@.len() as int) =~= items@);
    }
    Some(total)
}

proof fn lemma_items_size_prefix(items: Seq<MaintenanceItem>, k: int)
    requires
        0 <= k <= items.len(),
    ensures
        items_size(items.take(k)) <= items_size(items),
    decreases items.len() - k,
{
    if k < items.len() {
        lemma_items_size_prefix(items, k + 1);
        assert(items.take(k + 1).drop_last() =~= items.take(k));
    } else {
        assert(items.take(k) =~= items);
    }
}

/// The checked items, in order.
pub fn checked(items: &Vec<MaintenanceItem>) -> (r: Vec<&MaintenanceItem>)
    ensures
        r@.map_values(|i: &MaintenanceItem| *i) == checked_items(items@),
{
    let mut r: Vec<&MaintenanceItem> = Vec::new();
    let mut i: usize = 0;
    proof {
        reveal_with_fuel(Seq::filter, 1);
    }
    while i < items.len()
        invariant
            i <= items@.len(),
            r@.map_values(|i: &MaintenanceItem| *i) == checked_items(items@.take(i as int)),
        decreases items@.len() - i,
    {
        proof {
            reveal_with_fuel(Seq::filter, 1);
            assert(items@.take(i + 1).drop_last() =~= items@.take(i as int));
        }
        if items[i].checked {
            let ghost before = r@;
            r.push(&items[i]);
            proof {
                assert(r@.map_values(|i: &MaintenanceItem| *i) =~= before.map_values(|i: &MaintenanceItem| *i).push(
                    items@[i as int],
                ));
            }
        }
        i = i + 1;
    }
    proof {
        assert(items@.take(items@.len() as int) =~= items@);
    }
    r
}

proof fn lemma_checked_step(items: Seq<MaintenanceItem>, k: int)
    requires
        0 <= k < items.len(),
    ensures
        items_size(checked_items(items.take(k + 1))) == items_size(checked_items(items.take(k))) + if items[k].checked {
            items[k].size as int
        } else {
            0
        },
{
    reveal_with_fuel(Seq::filter, 1);
    let a = items.take(k + 1);
    assert(a.drop_last() =~= items.take(k));
    assert(a.last() == items[k]);
    let f = checked_items(items.take(k));
    if items[k].checked {
        assert(checked_items(a) == f.push(items[k]));
        assert(f.push(items[k]).drop_last() =~= f);
    } else {
        assert(checked_items(a) == f);
    }
}

proof fn lemma_checked_size_grows(items: Seq<MaintenanceItem>, k: int)
    requires
        0 <= k <= items.len(),
    ensures
        items_size(checked_items(items.take(k))) <= items_size(checked_items(items)),
    decreases items.len() - k,
{
    if k < items.len() {
        lemma_checked_size_grows(items, k + 1);
        lemma_checked_step(items, k);
    } else {
        assert(items.take(k) =~= items);
    }
}

/// The total size of the checked items; `None` when it does not fit in 64
/// bits.
pub fn checked_size(items: &Vec<MaintenanceItem>) -> (r: Option<u64>)
    ensures
        match r {
            Some(s) => s == items_size(checked_items(items@)),
            None => items_size(checked_items(items@)) > u64::MAX,
        },
{
    let mut total: u64 = 0;
    let mut i: usize = 0;
    proof {
        reveal_with_fuel(Seq::filter, 1);
        assert(checked_items(items@.take(0)) =~= Seq::<MaintenanceItem>::empty());
    }
    while i < items.len()
        invariant
            i <= items@.len(),
            total == items_size(checked_items(items@.take(i as int))),
        decreases items@.len() - i,
    {
        proof {
            lemma_checked_step(items@, i as int);
        }
        if items[i].checked {
            match total.checked_add(items[i].size) {
                Some(t) => {
                    total = t;
                },
                None => {
                    proof {
                        lemma_checked_size_grows(items@, i + 1);
                    }
                    return None;
                },
            }
        }
        i = i + 1;
    }
    proof {
        assert(items@.take(items@.len() as int) =~= items@);
    }
    Some(total)
}

/// `"<n> items found | <size> reclaimable"`.
pub fn scan_status(count: usize, size: u64) -> (r: String)
    ensures
        r@ == dec_text(count as nat) + " items found | "@ + byte_size_text(size) + " reclaimable"@,
{
    let mut v: Vec<char> = Vec::new();
    push_decimal(&mut v, count as u64);
    push_str(&mut v, " items found | ");
    let s = format_size(size);
    push_str(&mut v, s.as_str());
    push_str(&mut v, " reclaimable");
    string_of(&v)
}

/// The label of the clean button for the checked items' count and size.
pub fn clean_button_label(count: usize, size: u64) -> (r: String)
    ensures
        r@ == if count > 0 {
            "Clean Selected ("@ + byte_size_text(size) + ")"@
        } else {
            "Clean Selected"@
        },
{
    if count > 0 {
        let mut v: Vec<char> = Vec::new();
        push_str(&mut v, "Clean Selected (");
        let s = format_size(size);
        push_str(&mut v, s.as_str());
        push_str(&mut v, ")");
        string_of(&v)
    } else {
        "Clean Selected".to_owned()
    }
}

/// `"Cleaning <n> items..."`.
pub fn cleaning_status(count: usize) -> (r: String)
    ensures
        r@ == "Cleaning "@ + dec_text(count as nat) + " items..."@,
{
    let mut v: Vec<char> = Vec::new();
    push_str(&mut v, "Cleaning ");
    push_decimal(&mut v, count as u64);
    push_str(&mut v, " items...");
    string_of(&v)
}

// ---------------------------------------------------------------------------
// Running the cleanups
// ---------------------------------------------------------------------------

/// A cleanup to run: the task's label and its command.
pub struct Cleanup {
    pub label: String,
    pub command: String,
}

pub open spec fn cleanup_view(c: Cleanup) -> (Seq<char>, Seq<char>) {
    (c.label@, c.command@)
}

pub open spec fn cleanup_views(cs: Seq<Cleanup>) -> Seq<(Seq<char>, Seq<char>)> {
    cs.map_values(|c: Cleanup| cleanup_view(c))
}

/// The cleanups of the checked items that need root, with `pkexec `
/// removed from their commands (they run together under one `pkexec`).
pub open spec fn root_cleanups(items: Seq<MaintenanceItem>) -> Seq<(Seq<char>, Seq<char>)>
    decreases items.len(),
{
    if items.len() == 0 {
        seq![]
    } else {
        let rest = root_cleanups(items.drop_last());
        let it = items.last();
        if it.checked && it.command@.len() > 0 && starts_with(it.command@, "pkexec "@) {
            rest.push((it.label@, it.command@.skip(7)))
        } else {
            rest
        }
    }
}

/// The cleanups of the checked items that run as the user.
pub open spec fn user_cleanups(items: Seq<MaintenanceItem>) -> Seq<(Seq<char>, Seq<char>)>
    decreases items.len(),
{
    if items.len() == 0 {
        seq![]
    } else {
        let rest = user_cleanups(items.drop_last());
        let it = items.last();
        if it.checked && it.command@.len() > 0 && !starts_with(it.command@, "pkexec "@) {
            rest.push((it.label@, it.command@))
        } else {
            rest
        }
    }
}

/// Splits the checked items' commands into those for root and those for
/// the user; items without a command are left out.
pub fn split_cleanups(items: &Vec<MaintenanceItem>) -> (r: (Vec<Cleanup>, Vec<Cleanup>))
    ensures
        cleanup_views(r.0@) == root_cleanups(items@),
        cleanup_views(r.1@) == user_cleanups(items@),
{
    let mut root: Vec<Cleanup> = Vec::new();
    let mut user: Vec<Cleanup> = Vec::new();
    let prefix = chars_of("pkexec ");
    let mut i: usize = 0;
    proof {
        reveal_strlit("pkexec ");
    }
    while i < items.len()
        invariant
            i <= items@.len(),
            prefix@ == "pkexec "@,
            prefix@.len() == 7,
            cleanup_views(root@) == root_cleanups(items@.take(i as int)),
            cleanup_views(user@) == user_cleanups(items@.take(i as int)),
        decreases items@.len() - i,
    {
        let it = &items[i];
        proof {
            assert(items@.take(i + 1).drop_last() =~= items@.take(i as int));
            assert(items@.take(i + 1).last() == *it);
        }
        if it.checked && !it.command.as_str().is_empty() {
            let cmd = chars_of(it.command.as_str());
            if has_prefix(&cmd, &prefix) {
                let rest = copy_range(&cmd, 7, cmd.len());
                let ghost before = root@;
                let c = Cleanup { label: it.label.clone(), command: string_of(&rest) };
                root.push(c);
                proof {
                    assert(rest@ =~= it.command@.skip(7));
                    assert(cleanup_views(root@) =~= cleanup_views(before).push(cleanup_view(c)));
                }
            } else {
                let ghost before = user@;
                let c = Cleanup { label: it.label.clone(), command: it.command.clone() };
                user.push(c);
                proof {
                    assert(cleanup_views(user@) =~= cleanup_views(before).push(cleanup_view(c)));
                }
            }
        }
        i = i + 1;
    }
    proof {
        assert(items@.take(items@.len() as int) =~= items@);
    }
    (root, user)
}

/// The marker echoed after the `i`-th root command succeeds.
pub open spec fn ok_marker(i: nat) -> Seq<char> {
    "__OK_"@ + dec_text(i) + "__"@
}

/// The lines of the root script: each command followed by its marker.
pub open spec fn script_lines(cs: Seq<(Seq<char>, Seq<char>)>) -> Seq<Seq<char>> {
    Seq::new(cs.len(), |i: int| cs[i].1 + " && echo "@ + ok_marker(i as nat))
}

fn marker(i: usize) -> (r: Vec<char>)
    ensures
        r@ == ok_marker(i as nat),
{
    let mut v: Vec<char> = Vec::new();
    push_str(&mut v, "__OK_");
    push_decimal(&mut v, i as u64);
    push_str(&mut v, "__");
    v
}

/// The script run as root: one line per command, `<command> && echo
/// __OK_<i>__`, joined by newlines.
pub fn root_script(cleanups: &Vec<Cleanup>) -> (r: String)
    ensures
        r@ == join(script_lines(cleanup_views(cleanups@)), "\n"@),
{
    let mut lines: Vec<String> = Vec::new();
    let ghost cs = cleanup_views(cleanups@);
    let mut i: usize = 0;
    while i < cleanups.len()
        invariant
            i <= cleanups@.len(),
            cs == cleanup_views(cleanups@),
            strs(lines@) == script_lines(cs).take(i as int),
        decreases cleanups@.len() - i,
    {
        let mut v: Vec<char> = Vec::new();
        push_str(&mut v, cleanups[i].command.as_str());
        push_str(&mut v, " && echo ");
        let m = marker(i);
        crate::text::push_all(&mut v, &m);
        let s = string_of(&v);
        proof {
            crate::text::lemma_strs_push(lines@, s);
            assert(script_lines(cs).take(i + 1) =~= script_lines(cs).take(i as int).push(s@));
        }
        lines.push(s);
        i = i + 1;
    }
    proof {
        assert(script_lines(cs).take(cs.len() as int) =~= script_lines(cs));
    }
    string_of(&crate::text::join_strings(&lines, "\n"))
}

/// How one cleanup went: its label, whether it succeeded, and the error
/// text when it did not.
pub struct Outcome {
    pub label: String,
    pub success: bool,
    pub error: String,
}

pub open spec fn outcome_view(o: Outcome) -> (Seq<char>, bool, Seq<char>) {
    (o.label@, o.success, o.error@)
}

/// What the root script's run tells of each root cleanup.  Exit codes 126
/// and 127 mean the authorisation was refused: every cleanup failed with
/// "Auth cancelled".  Otherwise a cleanup succeeded when its marker is in
/// the output, and a failed one carries the error output.
pub open spec fn root_outcome(cs: Seq<(Seq<char>, Seq<char>)>, exit_code: int, stdout: Seq<char>, stderr: Seq<char>, i: int) -> (
    Seq<char>,
    bool,
    Seq<char>,
) {
    if exit_code == 126 || exit_code == 127 {
        (cs[i].0, false, "Auth cancelled"@)
    } else if contains_seq(stdout, ok_marker(i as nat)) {
        (cs[i].0, true, seq![])
    } else {
        (cs[i].0, false, stderr)
    }
}

/// The outcomes of the root cleanups after the script ran with
/// `exit_code` (-1 when it had none) and the given output.
pub fn root_outcomes(cleanups: &Vec<Cleanup>, exit_code: i32, stdout: &str, stderr: &str) -> (r: Vec<Outcome>)
    ensures
        r@.len() == cleanups@.len(),
        forall|i: int|
            0 <= i < cleanups@.len() ==> outcome_view(#[trigger] r@[i]) == root_outcome(
                cleanup_views(cleanups@),
                exit_code as int,
                stdout@,
                stderr@,
                i,
            ),
{
    let out_chars = chars_of(stdout);
    let mut r: Vec<Outcome> = Vec::new();
    let mut i: usize = 0;
    while i < cleanups.len()
        invariant
            i <= cleanups@.len(),
            out_chars@ == stdout@,
            r@.len() == i,
            forall|k: int|
                0 <= k < i ==> outcome_view(#[trigger] r@[k]) == root_outcome(
                    cleanup_views(cleanups@),
                    exit_code as int,
                    stdout@,
                    stderr@,
                    k,
                ),
        decreases cleanups@.len() - i,
    {
        let label = cleanups[i].label.clone();
        let o = if exit_code == 126 || exit_code == 127 {
            Outcome { label, success: false, error: "Auth cancelled".to_owned() }
        } else {
            let m = marker(i);
            if contains_chars(&out_chars, &m) {
                Outcome { label, success: true, error: String::new() }
            } else {
                Outcome { label, success: false, error: stderr.to_owned() }
            }
        };
        r.push(o);
        i = i + 1;
    }
    r
}

/// How many outcomes succeeded.
pub open spec fn successes(os: Seq<Outcome>) -> nat
    decreases os.len(),
{
    if os.len() == 0 {
        0
    } else {
        successes(os.drop_last()) + if os.last().success {
            1nat
        } else {
            0nat
        }
    }
}

proof fn lemma_successes_bound(os: Seq<Outcome>)
    ensures
        successes(os) <= os.len(),
    decreases os.len(),
{
    if os.len() > 0 {
        lemma_successes_bound(os.drop_last());
    }
}

/// The message after cleaning `total` items: `"Done: <total> items
/// cleaned"` when nothing failed, else `"Done: <s>/<total> succeeded, <f>
/// failed"`.
pub fn clean_summary(outcomes: &Vec<Outcome>, total: usize) -> (r: String)
    ensures
        ({
            let s = successes(outcomes@);
            let f = outcomes@.len() - s;
            r@ == if f > 0 {
                "Done: "@ + dec_text(s) + "/"@ + dec_text(total as nat) + " succeeded, "@ + dec_text(f as nat)
                    + " failed"@
            } else {
                "Done: "@ + dec_text(total as nat) + " items cleaned"@
            }
        }),
{
    let mut ok: usize = 0;
    let mut i: usize = 0;
    while i < outcomes.len()
        invariant
            i <= outcomes@.len(),
            ok == successes(outcomes@.take(i as int)),
            ok <= i,
        decreases outcomes@.len() - i,
    {
        proof {
            assert(outcomes@.take(i + 1).drop_last() =~= outcomes@.take(i as int));
        }
        if outcomes[i].success {
            ok = ok + 1;
        }
        i = i + 1;
    }
    proof {
        assert(outcomes@.take(outcomes@.len() as int) =~= outcomes@);
    }
    let failed = outcomes.len() - ok;
    let mut v: Vec<char> = Vec::new();
    push_str(&mut v, "Done: ");
    if failed > 0 {
        push_decimal(&mut v, ok as u64);
        push_str(&mut v, "/");
        push_decimal(&mut v, total as u64);
        push_str(&mut v, " succeeded, ");
        push_decimal(&mut v, failed as u64);
        push_str(&mut v, " failed");
    } else {
        push_decimal(&mut v, total as u64);
        push_str(&mut v, " items cleaned");
    }
    string_of(&v)
}

} // verus!
