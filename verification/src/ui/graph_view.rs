//! The state behind the dependency graph view: the selection and the
//! orphans it would leave, search matches, how nodes and edges are drawn,
//! and the texts of the toolbar and tooltips.

use vstd::prelude::*;

use crate::model::dep_tree::{removal_branch_ok, contains_string, DependencyTree};
use crate::model::package::{qid, shown_name, PackageInfo};
use crate::model::package_source::label_text;
use crate::scanner::pacman::{
    clock_hour, days_before_month, days_before_year, install_date_value, is_leap, leap, month_number, year_days,
};
use crate::text::{
    chars_of, contains_chars, contains_seq, dec_text, lemma_strs_push, lines, lines_of, lowercase_of, pieces,
    push_decimal, push_str, split_on, split_ws, string_of, strs, to_lowercase, int_text_value,
};
use crate::units::{byte_size_text, format_size};

verus! {

// ---------------------------------------------------------------------------
// Dates
// ---------------------------------------------------------------------------

/// Days in month `m` of year `y` (30 for a number that is no month).
pub open spec fn month_days(y: int, m: int) -> int {
    if m == 1 || m == 3 || m == 5 || m == 7 || m == 8 || m == 10 || m == 12 {
        31
    } else if m == 2 {
        if is_leap(y) {
            29
        } else {
            28
        }
    } else {
        30
    }
}

/// Days from 1970-01-01 to January 1st of year `y` (negative for years
/// before 1970), in the proleptic Gregorian calendar.
pub open spec fn year_start(y: int) -> int
    decreases 1970 - y,
{
    if y >= 1970 {
        days_before_year(y)
    } else {
        year_start(y + 1) - year_days(y)
    }
}

/// Whether `y-m-d` is the calendar date `n` days after 1970-01-01 (before
/// it for negative `n`).
pub open spec fn is_date_of(n: int, y: int, m: int, d: int) -> bool {
    &&& 1 <= m <= 12
    &&& 1 <= d <= month_days(y, m)
    &&& n == year_start(y) + days_before_month(m, is_leap(y)) + d - 1
}

/// A number printed with `{:02}`: at least two characters, zero-padded
/// after the sign.
pub open spec fn pad2(n: int) -> Seq<char> {
    if n < 0 {
        "-"@ + dec_text((-n) as nat)
    } else if n < 10 {
        "0"@ + dec_text(n as nat)
    } else {
        dec_text(n as nat)
    }
}

/// A year printed with `{:04}`: at least four characters, zero-padded after
/// the sign.
pub open spec fn year_text(y: int) -> Seq<char> {
    if y >= 1000 {
        dec_text(y as nat)
    } else if y >= 100 {
        "0"@ + dec_text(y as nat)
    } else if y >= 10 {
        "00"@ + dec_text(y as nat)
    } else if y >= 0 {
        "000"@ + dec_text(y as nat)
    } else if y > -10 {
        "-00"@ + dec_text((-y) as nat)
    } else if y > -100 {
        "-0"@ + dec_text((-y) as nat)
    } else {
        "-"@ + dec_text((-y) as nat)
    }
}

/// `YYYY-MM-DD`.
pub open spec fn date_text(y: int, m: int, d: int) -> Seq<char> {
    year_text(y) + "-"@ + pad2(m) + "-"@ + pad2(d)
}

/// The day of a Unix timestamp: whole days since the epoch, rounded down.
pub open spec fn day_number(ts: int) -> int {
    ts / 86400
}

fn month_len(y: i64, m: i64) -> (r: i64)
    ensures
        r == month_days(y as int, m as int),
{
    if m == 1 || m == 3 || m == 5 || m == 7 || m == 8 || m == 10 || m == 12 {
        31
    } else if m == 2 {
        if leap(y) {
            29
        } else {
            28
        }
    } else {
        30
    }
}

fn push_pad2(v: &mut Vec<char>, n: i64)
    ensures
        final(v)@ == old(v)@ + pad2(n as int),
{
    if n < 0 {
        push_str(v, "-");
        let m: u64 = (0 - (n as i128)) as u64;
        push_decimal(v, m);
    } else if n < 10 {
        push_str(v, "0");
        push_decimal(v, n as u64);
    } else {
        push_decimal(v, n as u64);
    }
}

fn push_year(v: &mut Vec<char>, y: i64)
    ensures
        final(v)@ == old(v)@ + year_text(y as int),
{
    if y >= 1000 {
        push_decimal(v, y as u64);
    } else if y >= 100 {
        push_str(v, "0");
        push_decimal(v, y as u64);
    } else if y >= 10 {
        push_str(v, "00");
        push_decimal(v, y as u64);
    } else if y >= 0 {
        push_str(v, "000");
        push_decimal(v, y as u64);
    } else {
        let m: u64 = (0 - (y as i128)) as u64;
        if y > -10 {
            push_str(v, "-00");
        } else if y > -100 {
            push_str(v, "-0");
        } else {
            push_str(v, "-");
        }
        push_decimal(v, m);
    }
}

/// The day of a timestamp, rounded down.
fn floor_day(ts: i64) -> (r: i64)
    ensures
        r as int == day_number(ts as int),
        r * 86400 <= ts < r * 86400 + 86400,
{
    if ts >= 0 {
        let q = ts / 86400;
        proof {
            vstd::arithmetic::div_mod::lemma_fundamental_div_mod(ts as int, 86400);
            vstd::arithmetic::div_mod::lemma_mod_bound(ts as int, 86400);
        }
        q
    } else {
        let a: i128 = 0 - (ts as i128);
        let c: i128 = (a + 86399) / 86400;
        proof {
            let x = a + 86399;
            vstd::arithmetic::div_mod::lemma_fundamental_div_mod(x as int, 86400);
            vstd::arithmetic::div_mod::lemma_mod_bound(x as int, 86400);
            assert(x == 86400 * c + x % 86400);
            vstd::arithmetic::div_mod::lemma_fundamental_div_mod_converse(ts as int, 86400, -c, ts + 86400 * c);
        }
        (0 - c) as i64
    }
}

proof fn lemma_months_fill_year(y: int, m: int)
    requires
        1 <= m <= 12,
    ensures
        days_before_month(m + 1, is_leap(y)) == days_before_month(m, is_leap(y)) + month_days(y, m) || m == 12,
        m == 12 ==> days_before_month(12, is_leap(y)) + month_days(y, 12) == year_days(y),
{
}

proof fn lemma_year_start_step(y: int)
    ensures
        year_start(y + 1) == year_start(y) + year_days(y),
{
    if y >= 1970 {
        crate::scanner::pacman::lemma_days_before_year_step(y);
    }
}

/// Whether `s` is how a Unix timestamp is shown: the `YYYY-MM-DD` date of
/// its day.
pub open spec fn is_timestamp_text(ts: int, s: Seq<char>) -> bool {
    exists|y: int, m: int, d: int| is_date_of(day_number(ts), y, m, d) && s == #[trigger] date_text(y, m, d)
}

/// Formats a Unix timestamp as `YYYY-MM-DD` (UTC).
pub fn format_timestamp(ts: i64) -> (r: String)
    ensures
        is_timestamp_text(ts as int, r@),
{
    let days = floor_day(ts);
    let mut rem: i64 = days;
    let mut year: i64 = 1970;
    proof {
        crate::scanner::pacman::lemma_days_before_year_bound(1970);
        assert(year_start(1970) == 0);
    }
    if days >= 0 {
        loop
            invariant
                days >= 0,
                days == day_number(ts as int),
                1970 <= year,
                0 <= rem <= days,
                (year - 1970) * 365 <= days - rem,
                rem == days - year_start(year as int),
            ensures
                0 <= rem < year_days(year as int),
                rem == days - year_start(year as int),
                days == day_number(ts as int),
            decreases rem,
        {
            let len: i64 = if leap(year) {
                366
            } else {
                365
            };
            if rem < len {
                break;
            }
            proof {
                lemma_year_start_step(year as int);
            }
            rem = rem - len;
            year = year + 1;
        }
    } else {
        while rem < 0
            invariant
                days < 0,
                days == day_number(ts as int),
                days * 86400 <= ts,
                ts >= i64::MIN,
                year <= 1970,
                days <= rem < year_days(year as int),
                (1970 - year) * 365 <= rem - days,
                rem == days - year_start(year as int),
            decreases 366 - rem,
        {
            proof {
                lemma_year_start_step(year - 1);
            }
            year = year - 1;
            let len: i64 = if leap(year) {
                366
            } else {
                365
            };
            rem = rem + len;
        }
    }
    let mut month: i64 = 1;
    loop
        invariant
            days == day_number(ts as int),
            1 <= month <= 12,
            0 <= rem,
            year > i64::MIN,
            rem < year_days(year as int) - days_before_month(month as int, is_leap(year as int)),
            days == year_start(year as int) + days_before_month(month as int, is_leap(year as int)) + rem,
        ensures
            1 <= month <= 12,
            0 <= rem < month_days(year as int, month as int),
            days == year_start(year as int) + days_before_month(month as int, is_leap(year as int)) + rem,
            days == day_number(ts as int),
            year > i64::MIN,
        decreases 12 - month,
    {
        let dim = month_len(year, month);
        if rem < dim {
            break;
        }
        proof {
            lemma_months_fill_year(year as int, month as int);
        }
        rem = rem - dim;
        month = month + 1;
    }
    let day = rem + 1;
    let mut v: Vec<char> = Vec::new();
    push_year(&mut v, year);
    push_str(&mut v, "-");
    push_pad2(&mut v, month);
    push_str(&mut v, "-");
    push_pad2(&mut v, day);
    proof {
        assert(is_date_of(days as int, year as int, month as int, day as int));
        assert(v@ =~= date_text(year as int, month as int, day as int));
    }
    string_of(&v)
}

proof fn lemma_year_start_monotone(a: int, b: int)
    requires
        a <= b,
    ensures
        year_start(a) <= year_start(b),
    decreases b - a,
{
    if a < b {
        lemma_year_start_monotone(a, b - 1);
        lemma_year_start_step(b - 1);
    }
}

/// A date lies within its year.
proof fn lemma_date_within_year(n: int, y: int, m: int, d: int)
    requires
        is_date_of(n, y, m, d),
    ensures
        year_start(y) <= n < year_start(y) + year_days(y),
{
}

/// A day number names one calendar date.
proof fn lemma_date_unique(n: int, y1: int, m1: int, d1: int, y2: int, m2: int, d2: int)
    requires
        is_date_of(n, y1, m1, d1),
        is_date_of(n, y2, m2, d2),
    ensures
        y1 == y2 && m1 == m2 && d1 == d2,
{
    lemma_date_within_year(n, y1, m1, d1);
    lemma_date_within_year(n, y2, m2, d2);
    if y1 < y2 {
        lemma_year_start_step(y1);
        lemma_year_start_monotone(y1 + 1, y2);
    } else if y2 < y1 {
        lemma_year_start_step(y2);
        lemma_year_start_monotone(y2 + 1, y1);
    }
    assert(y1 == y2);
    if m1 < m2 {
        assert(days_before_month(m1, is_leap(y1)) + month_days(y1, m1) <= days_before_month(m2, is_leap(y1)));
    } else if m2 < m1 {
        assert(days_before_month(m2, is_leap(y1)) + month_days(y1, m2) <= days_before_month(m1, is_leap(y1)));
    }
}

/// The day number of the date `y-m-d`.
pub open spec fn day_index(y: int, m: int, d: int) -> int {
    days_before_year(y) + days_before_month(m, is_leap(y)) + d - 1
}

/// An install date read from pacman is shown as the same calendar date:
/// `format_timestamp` of what `parse_install_date` reads gives back the
/// date.  When the day, month and year of a date line name a real day from
/// 1970 on, and its time (with the AM/PM marker applied) is a time of day,
/// the line is read (always, for years up to 9999), and the one text shown
/// for the timestamp read (`install_date_value`, by the contract of
/// `parse_install_date`) is that day as `YYYY-MM-DD`.
pub proof fn lemma_install_date_round_trip(
    s: Seq<char>,
    y: int,
    m: int,
    d: int,
    hour: int,
    minute: int,
    second: int,
)
    requires
        split_ws(s).len() >= 6,
        int_text_value(split_ws(s)[1]) == Some(d),
        month_number(split_ws(s)[2]) == m,
        int_text_value(split_ws(s)[3]) == Some(y),
        split_on(split_ws(s)[4], ':').len() == 3,
        int_text_value(split_on(split_ws(s)[4], ':')[0]) == Some(hour),
        int_text_value(split_on(split_ws(s)[4], ':')[1]) == Some(minute),
        int_text_value(split_on(split_ws(s)[4], ':')[2]) == Some(second),
        y >= 1970,
        1 <= m <= 12,
        1 <= d <= month_days(y, m),
        0 <= clock_hour(hour, split_ws(s)[5]) < 24,
        0 <= minute < 60,
        0 <= second < 60,
    ensures
        y <= 9999 ==> install_date_value(s) is Some,
        install_date_value(s) is Some ==> is_timestamp_text(install_date_value(s).unwrap(), date_text(y, m, d)),
        install_date_value(s) is Some ==> forall|shown: Seq<char>|
            is_timestamp_text(install_date_value(s).unwrap(), shown) ==> shown == date_text(y, m, d),
{
    let n = day_index(y, m, d);
    let tod = clock_hour(hour, split_ws(s)[5]) * 3600 + minute * 60 + second;
    crate::scanner::pacman::lemma_days_before_year_bound(y);
    assert(0 <= tod < 86400);
    assert(n >= 0);
    if y <= 9999 {
        assert(n <= 3_000_000);
        assert(0 <= n * 86400 <= 3_000_000 * 86400) by (nonlinear_arith)
            requires
                0 <= n <= 3_000_000,
        ;
    }
    if install_date_value(s) is Some {
        let ts = install_date_value(s).unwrap();
        assert(ts == n * 86400 + tod);
        vstd::arithmetic::div_mod::lemma_fundamental_div_mod_converse(ts, 86400, n, tod);
        assert(day_number(ts) == n);
        assert(is_date_of(n, y, m, d));
        assert(is_date_of(day_number(ts), y, m, d) && date_text(y, m, d) == date_text(y, m, d));
        assert forall|shown: Seq<char>| is_timestamp_text(ts, shown) implies shown == date_text(y, m, d) by {
            let (y2, m2, d2) = choose|y2: int, m2: int, d2: int|
                is_date_of(day_number(ts), y2, m2, d2) && shown == #[trigger] date_text(y2, m2, d2);
            lemma_date_unique(n, y, m, d, y2, m2, d2);
        }
    }
}

// ---------------------------------------------------------------------------
// Selection
// ---------------------------------------------------------------------------

/// The members of `r` that are not in `sel`, in order.
pub open spec fn without(r: Seq<Seq<char>>, sel: Seq<Seq<char>>) -> Seq<Seq<char>> {
    r.filter(|x: Seq<char>| !sel.contains(x))
}

/// A selection after a click on `id`: without `id` when it was selected,
/// with `id` added at the end otherwise.
pub open spec fn toggled(sel: Seq<Seq<char>>, id: Seq<char>) -> Seq<Seq<char>> {
    if sel.contains(id) {
        sel.remove_value(id)
    } else {
        sel.push(id)
    }
}

/// Whether no id of `sel` names a protected package of the graph.
pub open spec fn spares_protected(t: DependencyTree, sel: Seq<Seq<char>>) -> bool {
    forall|i: int| 0 <= i < t.len() && #[trigger] t.info_at(i).is_protected ==> !sel.contains(t.id_at(i))
}

/// Whether `id` names a protected package of the graph.
pub open spec fn names_protected(t: DependencyTree, id: Seq<char>) -> bool {
    exists|i: int| 0 <= i < t.len() && #[trigger] t.id_at(i) == id && t.info_at(i).is_protected
}

/// A click adds at most the clicked id.
proof fn lemma_toggled_members(sel: Seq<Seq<char>>, id: Seq<char>)
    ensures
        forall|x: Seq<char>| #[trigger] toggled(sel, id).contains(x) ==> sel.contains(x) || x == id,
{
    if sel.contains(id) {
        sel.index_of_first_ensures(id);
        let i = sel.index_of_first(id).unwrap();
        let once = sel.remove(i);
        assert(toggled(sel, id) == once);
        assert forall|x: Seq<char>| #[trigger] once.contains(x) implies sel.contains(x) by {
            let k = choose|k: int| 0 <= k < once.len() && once[k] == x;
            if k < i {
                assert(sel[k] == x);
            } else {
                assert(sel[k + 1] == x);
            }
        }
    } else {
        assert forall|x: Seq<char>| #[trigger] sel.push(id).contains(x) implies sel.contains(x) || x == id by {
            let k = choose|k: int| 0 <= k < sel.push(id).len() && sel.push(id)[k] == x;
            if k < sel.len() {
                assert(sel[k] == x);
            }
        }
    }
}

/// No click brings a protected package into the selection: clicking a node
/// that is not protected keeps a selection free of protected packages free
/// of them (a click on a protected node changes nothing).
pub proof fn lemma_toggle_spares_protected(t: DependencyTree, sel: Seq<Seq<char>>, id: Seq<char>)
    requires
        spares_protected(t, sel),
        !names_protected(t, id),
    ensures
        spares_protected(t, toggled(sel, id)),
{
    lemma_toggled_members(sel, id);
    assert forall|i: int| 0 <= i < t.len() && #[trigger] t.info_at(i).is_protected implies !toggled(sel, id).contains(
        t.id_at(i),
    ) by {
        if t.id_at(i) == id {
            assert(names_protected(t, id));
        }
    }
}

/// Clicking the same node twice gives back the selection: exactly, when it
/// was not selected; with the same members (the node moved to the end),
/// when it was.  Either way no id is selected twice.
pub proof fn lemma_toggle_twice(sel: Seq<Seq<char>>, id: Seq<char>)
    requires
        sel.no_duplicates(),
    ensures
        toggled(sel, id).no_duplicates(),
        !sel.contains(id) ==> toggled(toggled(sel, id), id) == sel,
        forall|x: Seq<char>| #[trigger] toggled(toggled(sel, id), id).contains(x) <==> sel.contains(x),
{
    broadcast use vstd::seq_lib::group_seq_properties;
    if sel.contains(id) {
        sel.index_of_first_ensures(id);
        let i = sel.index_of_first(id).unwrap();
        let once = sel.remove(i);
        assert(toggled(sel, id) == once);
        assert(!once.contains(id)) by {
            if once.contains(id) {
                let k = choose|k: int| 0 <= k < once.len() && once[k] == id;
                if k < i {
                    assert(sel[k] == id);
                } else {
                    assert(sel[k + 1] == id);
                }
            }
        }
        assert(once.no_duplicates()) by {
            assert forall|a: int, b: int| 0 <= a < once.len() && 0 <= b < once.len() && a != b implies once[a] != once[b] by {
                let sa = if a < i { a } else { a + 1 };
                let sb = if b < i { b } else { b + 1 };
                assert(once[a] == sel[sa] && once[b] == sel[sb]);
            }
        }
        assert(toggled(once, id) == once.push(id));
        assert forall|x: Seq<char>| #[trigger] toggled(toggled(sel, id), id).contains(x) <==> sel.contains(x) by {
            if sel.contains(x) && x != id {
                let k = choose|k: int| 0 <= k < sel.len() && sel[k] == x;
                assert(k != i);
                if k < i {
                    assert(once[k] == x);
                } else {
                    assert(once[k - 1] == x);
                }
            }
            if once.contains(x) {
                let k = choose|k: int| 0 <= k < once.len() && once[k] == x;
                if k < i {
                    assert(sel[k] == x);
                } else {
                    assert(sel[k + 1] == x);
                }
            }
        }
    } else {
        let once = sel.push(id);
        assert(toggled(sel, id) == once);
        assert(once.contains(id)) by {
            assert(once[sel.len() as int] == id);
        }
        once.index_of_first_ensures(id);
        let i = once.index_of_first(id).unwrap();
        assert(i == sel.len()) by {
            if i < sel.len() {
                assert(sel[i] == id);
            }
        }
        assert(once.remove(i) =~= sel);
    }
}

/// The packages chosen for removal, and the dependencies their removal
/// would leave orphaned, shown as a preview.
pub struct Selection {
    selected: Vec<String>,
    orphans: Vec<String>,
}

impl Selection {
    /// The selected ids.
    pub closed spec fn selected_ids(&self) -> Seq<Seq<char>> {
        strs(self.selected@)
    }

    /// The orphan preview.
    pub closed spec fn orphan_ids(&self) -> Seq<Seq<char>> {
        strs(self.orphans@)
    }

    /// Nothing selected.
    pub fn new() -> (s: Self)
        ensures
            s.selected_ids().len() == 0,
            s.orphan_ids().len() == 0,
    {
        Selection { selected: Vec::new(), orphans: Vec::new() }
    }

    /// The selected ids, in the order they were chosen.
    pub fn selected(&self) -> (r: &Vec<String>)
        ensures
            strs(r@) == self.selected_ids(),
    {
        &self.selected
    }

    /// The orphan preview.
    pub fn orphans(&self) -> (r: &Vec<String>)
        ensures
            strs(r@) == self.orphan_ids(),
    {
        &self.orphans
    }

    /// Whether an id is selected.
    pub fn is_selected(&self, id: &str) -> (r: bool)
        ensures
            r == self.selected_ids().contains(id@),
    {
        let key = id.to_owned();
        contains_string(&self.selected, &key)
    }

    /// Whether an id is in the orphan preview.
    pub fn is_orphan(&self, id: &str) -> (r: bool)
        ensures
            r == self.orphan_ids().contains(id@),
    {
        let key = id.to_owned();
        contains_string(&self.orphans, &key)
    }

    /// A click on the node `node_id`: a protected package is left alone;
    /// otherwise the node joins the selection, or leaves it when it was
    /// selected.  The orphan preview becomes the removal branch of the new
    /// selection without the selected ids (empty for an empty selection).
    pub fn toggle(&mut self, tree: &DependencyTree, node_id: &str)
        requires
            tree.wf(),
            old(self).selected_ids().no_duplicates(),
        ensures
            final(self).selected_ids().no_duplicates(),
            (exists|i: int|
                0 <= i < tree.len() && #[trigger] tree.id_at(i) == node_id@ && tree.info_at(i).is_protected)
                ==> *final(self) == *old(self),
            spares_protected(*tree, old(self).selected_ids()) ==> spares_protected(*tree, final(self).selected_ids()),
            !(exists|i: int|
                0 <= i < tree.len() && #[trigger] tree.id_at(i) == node_id@ && tree.info_at(i).is_protected)
                ==> {
                &&& final(self).selected_ids() == toggled(old(self).selected_ids(), node_id@)
                &&& final(self).selected_ids().len() == 0 ==> final(self).orphan_ids().len() == 0
                &&& exists|r: Seq<Seq<char>>|
                    #[trigger] removal_branch_ok(*tree, final(self).selected_ids(), r) && final(self).orphan_ids()
                        == without(r, final(self).selected_ids())
            },
    {
        proof {
            tree.lemma_wf();
        }
        match tree.get(node_id) {
            Some(p) => {
                if p.is_protected {
                    return;
                }
                proof {
                    let j = choose|j: int| 0 <= j < tree.len() && #[trigger] tree.id_at(j) == node_id@ && *p == tree.info_at(j);
                    assert forall|i: int| 0 <= i < tree.len() && #[trigger] tree.id_at(i) == node_id@ implies !tree.info_at(i).is_protected by {
                        if i != j {
                            assert(tree.id_at(i) != tree.id_at(j));
                        }
                    }
                }
            },
            None => {},
        }
        let key = node_id.to_owned();
        let ghost old_sel = strs(self.selected@);
        let mut pos: usize = 0;
        while pos < self.selected.len() && !(self.selected[pos] == key)
            invariant
                pos <= self.selected@.len(),
                old_sel == strs(self.selected@),
                key@ == node_id@,
                forall|k: int| 0 <= k < pos ==> self.selected@[k]@ != key@,
            decreases self.selected@.len() - pos,
        {
            pos = pos + 1;
        }
        let found = pos < self.selected.len();
        if found {
            let ghost before = self.selected@;
            self.selected.remove(pos);
            proof {
                assert(before[pos as int]@ == node_id@);
                assert(strs(before)[pos as int] == node_id@);
                assert(strs(self.selected@) =~= strs(before).remove(pos as int));
                old_sel.index_of_first_ensures(node_id@);
                assert(old_sel[pos as int] == node_id@);
                assert(old_sel.contains(node_id@));
                let idx = old_sel.index_of_first(node_id@).unwrap();
                if idx < pos {
                    assert(old_sel[idx] == self.selected@[idx]@);
                }
                assert(idx == pos);
            }
        } else {
            proof {
                assert(!old_sel.contains(node_id@)) by {
                    if old_sel.contains(node_id@) {
                        let k = choose|k: int| 0 <= k < old_sel.len() && old_sel[k] == node_id@;
                        assert(self.selected@[k]@ == node_id@);
                    }
                }
                lemma_strs_push(self.selected@, key);
            }
            self.selected.push(key);
        }
        let mut orphans: Vec<String> = Vec::new();
        let ghost sel = strs(self.selected@);
        if self.selected.len() > 0 {
            let branch = tree.compute_removal_branch(&self.selected);
            let ghost br = strs(branch@);
            let mut k: usize = 0;
            proof {
                reveal_with_fuel(Seq::filter, 1);
                assert(br.take(0).filter(|x: Seq<char>| !sel.contains(x)) =~= Seq::<Seq<char>>::empty());
            }
            while k < branch.len()
                invariant
                    k <= branch@.len(),
                    br == strs(branch@),
                    sel == strs(self.selected@),
                    strs(orphans@) == br.take(k as int).filter(|x: Seq<char>| !sel.contains(x)),
                decreases branch@.len() - k,
            {
                proof {
                    reveal_with_fuel(Seq::filter, 1);
                    assert(br.take(k + 1).drop_last() =~= br.take(k as int));
                    assert(br.take(k + 1).last() == branch@[k as int]@);
                }
                if !contains_string(&self.selected, &branch[k]) {
                    let b = branch[k].clone();
                    proof {
                        lemma_strs_push(orphans@, b);
                    }
                    orphans.push(b);
                }
                k = k + 1;
            }
            proof {
                assert(br.take(br.len() as int) =~= br);
                assert(removal_branch_ok(*tree, sel, br)) by {
                    assert forall|j: int| 0 <= j < sel.len() implies br.contains(#[trigger] sel[j]) by {
                        assert(sel[j] == self.selected@[j]@);
                    }
                }
            }
        } else {
            proof {
                let e = Seq::<Seq<char>>::empty();
                reveal_with_fuel(Seq::filter, 1);
                assert(e.filter(|x: Seq<char>| !sel.contains(x)) =~= e);
                assert(removal_branch_ok(*tree, sel, e));
                assert(strs(orphans@) =~= e);
            }
        }
        self.orphans = orphans;
        proof {
            assert(!names_protected(*tree, node_id@));
            if spares_protected(*tree, old_sel) {
                lemma_toggle_spares_protected(*tree, old_sel, node_id@);
            }
        }
    }
}

// ---------------------------------------------------------------------------
// Search
// ---------------------------------------------------------------------------

/// Whether a package matches a search: the lower-cased query occurs in its
/// lower-cased name or display name.
pub open spec fn matches_query(p: PackageInfo, query: Seq<char>) -> bool {
    contains_seq(lowercase_of(p.name@), lowercase_of(query)) || contains_seq(
        lowercase_of(p.display_name@),
        lowercase_of(query),
    )
}

/// The ids of the matching packages among `pkgs`, in order.
pub open spec fn matching_ids(pkgs: Seq<PackageInfo>, query: Seq<char>) -> Seq<Seq<char>>
    decreases pkgs.len(),
{
    if pkgs.len() == 0 {
        seq![]
    } else {
        let rest = matching_ids(pkgs.drop_last(), query);
        if matches_query(pkgs.last(), query) {
            rest.push(qid(pkgs.last()))
        } else {
            rest
        }
    }
}

/// A search finds every package whose name or display name, in lower
/// case, holds the lower-cased query.
pub proof fn lemma_search_finds(pkgs: Seq<PackageInfo>, query: Seq<char>, i: int)
    requires
        0 <= i < pkgs.len(),
        contains_seq(lowercase_of(pkgs[i].name@), lowercase_of(query)) || contains_seq(
            lowercase_of(pkgs[i].display_name@),
            lowercase_of(query),
        ),
    ensures
        matching_ids(pkgs, query).contains(qid(pkgs[i])),
    decreases pkgs.len(),
{
    let rest = matching_ids(pkgs.drop_last(), query);
    if i == pkgs.len() - 1 {
        assert(pkgs.last() == pkgs[i]);
        assert(matching_ids(pkgs, query) == rest.push(qid(pkgs[i])));
        assert(rest.push(qid(pkgs[i]))[rest.len() as int] == qid(pkgs[i]));
    } else {
        assert(pkgs.drop_last()[i] == pkgs[i]);
        lemma_search_finds(pkgs.drop_last(), query, i);
        let k = choose|k: int| 0 <= k < rest.len() && rest[k] == qid(pkgs[i]);
        if matches_query(pkgs.last(), query) {
            assert(rest.push(qid(pkgs.last()))[k] == qid(pkgs[i]));
        }
    }
}

/// A search finds nothing else: each id found is that of a package whose
/// name or display name, in lower case, holds the lower-cased query.
pub proof fn lemma_search_finds_only_matches(pkgs: Seq<PackageInfo>, query: Seq<char>, k: int)
    requires
        0 <= k < matching_ids(pkgs, query).len(),
    ensures
        exists|i: int|
            0 <= i < pkgs.len() && qid(pkgs[i]) == matching_ids(pkgs, query)[k] && (contains_seq(
                lowercase_of(#[trigger] pkgs[i].name@),
                lowercase_of(query),
            ) || contains_seq(lowercase_of(pkgs[i].display_name@), lowercase_of(query))),
    decreases pkgs.len(),
{
    let rest = matching_ids(pkgs.drop_last(), query);
    let n = pkgs.len() - 1;
    if matches_query(pkgs.last(), query) && k == rest.len() {
        assert(pkgs.last() == pkgs[n]);
        assert(qid(pkgs[n]) == matching_ids(pkgs, query)[k]);
        assert(pkgs[n].name@ == pkgs[n].name@);
    } else {
        assert(matching_ids(pkgs, query)[k] == rest[k]);
        lemma_search_finds_only_matches(pkgs.drop_last(), query, k);
        let i = choose|i: int|
            0 <= i < pkgs.drop_last().len() && qid(pkgs.drop_last()[i]) == rest[k] && (contains_seq(
                lowercase_of(#[trigger] pkgs.drop_last()[i].name@),
                lowercase_of(query),
            ) || contains_seq(lowercase_of(pkgs.drop_last()[i].display_name@), lowercase_of(query)));
        assert(pkgs.drop_last()[i] == pkgs[i]);
        assert(pkgs[i].name@ == pkgs[i].name@);
    }
}

/// The ids of the packages highlighted by a search; none for an empty
/// query, which turns searching off.
pub fn search_matches(tree: &DependencyTree, query: &str) -> (r: Vec<String>)
    requires
        tree.wf(),
    ensures
        query@.len() == 0 ==> r@.len() == 0,
        query@.len() > 0 ==> strs(r@) == matching_ids(tree.infos(), query@),
{
    let mut r: Vec<String> = Vec::new();
    if query.is_empty() {
        return r;
    }
    let q = chars_of(to_lowercase(query).as_str());
    let pkgs = tree.all_packages();
    let ghost all = tree.infos();
    proof {
        assert(pkgs@ =~= all);
    }
    let mut i: usize = 0;
    while i < pkgs.len()
        invariant
            pkgs@ == all,
            q@ == lowercase_of(query@),
            i <= pkgs@.len(),
            strs(r@) == matching_ids(all.take(i as int), query@),
        decreases pkgs@.len() - i,
    {
        let p = &pkgs[i];
        proof {
            assert(all.take(i + 1).drop_last() =~= all.take(i as int));
            assert(all.take(i + 1).last() == *p);
        }
        let name = chars_of(to_lowercase(p.name.as_str()).as_str());
        let display = chars_of(to_lowercase(p.display_name.as_str()).as_str());
        if contains_chars(&name, &q) || contains_chars(&display, &q) {
            let id = p.qualified_id();
            proof {
                lemma_strs_push(r@, id);
            }
            r.push(id);
        }
        i = i + 1;
    }
    proof {
        assert(all.take(all.len() as int) =~= all);
    }
    r
}

// ---------------------------------------------------------------------------
// Toolbar
// ---------------------------------------------------------------------------

/// The depth slider's label.
pub fn depth_label(d: usize) -> (r: String)
    ensures
        r@ == if d == 0 {
            "Depth: 0 (apps only)"@
        } else if d == 10 {
            "Depth: 10 (all)"@
        } else {
            "Depth: "@ + dec_text(d as nat)
        },
{
    if d == 0 {
        "Depth: 0 (apps only)".to_owned()
    } else if d == 10 {
        "Depth: 10 (all)".to_owned()
    } else {
        let mut v: Vec<char> = Vec::new();
        push_str(&mut v, "Depth: ");
        push_decimal(&mut v, d as u64);
        string_of(&v)
    }
}

/// The sharing limit set by the slider value `v` and the slider's label:
/// from 50 on there is no limit.
pub fn max_shared(v: usize) -> (r: (usize, String))
    ensures
        r.0 == if v >= 50 {
            usize::MAX
        } else {
            v
        },
        r.1@ == if v >= 50 {
            "Max Shared: all"@
        } else {
            "Max Shared: "@ + dec_text(v as nat)
        },
{
    if v >= 50 {
        (usize::MAX, "Max Shared: all".to_owned())
    } else {
        let mut t: Vec<char> = Vec::new();
        push_str(&mut t, "Max Shared: ");
        push_decimal(&mut t, v as u64);
        (v, string_of(&t))
    }
}

/// The node count shown in the toolbar.
pub fn count_label(n: usize) -> (r: String)
    ensures
        r@ == dec_text(n as nat) + " packages"@,
{
    let mut v: Vec<char> = Vec::new();
    push_decimal(&mut v, n as u64);
    push_str(&mut v, " packages");
    string_of(&v)
}

/// The category chosen at a position of the category menu ("All", then the
/// canonical labels).
pub fn category_filter(index: usize) -> (r: Option<&'static str>)
    requires
        index <= 12,
    ensures
        index == 0 ==> r.is_none(),
        index > 0 ==> r.is_some() && r.unwrap()@ == crate::ui::categories::category_labels()[index - 1],
{
    if index == 0 {
        None
    } else {
        let labels = crate::ui::categories::category_label_list();
        proof {
            let views = labels@.map_values(|s: &'static str| s@);
            assert(views.len() == labels@.len());
            assert(crate::ui::categories::category_labels().len() == 12);
            assert(views[index - 1] == labels@[index - 1]@);
        }
        Some(labels[index - 1])
    }
}

// ---------------------------------------------------------------------------
// Drawing decisions
// ---------------------------------------------------------------------------

/// How an edge is drawn.
#[derive(Debug, Clone, Copy, PartialEq, Eq, Structural)]
pub enum EdgeStyle {
    /// Both ends are selected.
    Selected,
    /// A search is on and an end matches it.
    Match,
    Normal,
}

/// How an edge is drawn, from the state of its ends.
pub fn edge_style(from_selected: bool, to_selected: bool, searching: bool, from_match: bool, to_match: bool) -> (r:
    EdgeStyle)
    ensures
        r == if from_selected && to_selected {
            EdgeStyle::Selected
        } else if searching && (from_match || to_match) {
            EdgeStyle::Match
        } else {
            EdgeStyle::Normal
        },
{
    if from_selected && to_selected {
        EdgeStyle::Selected
    } else if searching && (from_match || to_match) {
        EdgeStyle::Match
    } else {
        EdgeStyle::Normal
    }
}

/// The state of a node that decides how it is drawn.
#[derive(Debug, Clone, Copy, PartialEq, Eq, Structural)]
pub struct NodeState {
    pub selected: bool,
    pub orphan: bool,
    pub hovered: bool,
    /// A search is on.
    pub searching: bool,
    /// The node is among the search matches.
    pub in_matches: bool,
    pub explicit: bool,
    pub protected: bool,
    /// The package has a primary category.
    pub has_category: bool,
}

/// The fill of a node.
#[derive(Debug, Clone, Copy, PartialEq, Eq, Structural)]
pub enum NodeFill {
    Selected,
    Orphan,
    Hovered,
    Match,
    Dimmed,
    /// The tint of the package's category.
    Category,
    Explicit,
    Dependency,
}

/// The border of a node.
#[derive(Debug, Clone, Copy, PartialEq, Eq, Structural)]
pub enum NodeBorder {
    Protected,
    Selected,
    Orphan,
    Hovered,
    Match,
    Explicit,
    Dependency,
}

/// The colour of a node's label.
#[derive(Debug, Clone, Copy, PartialEq, Eq, Structural)]
pub enum LabelTone {
    Dimmed,
    Selected,
    Explicit,
    Dependency,
}

/// Whether a node is highlighted by the search.
pub open spec fn is_match(s: NodeState) -> bool {
    s.searching && s.in_matches
}

/// Whether a node is dimmed: a search is on and it does not match.
pub open spec fn is_dimmed(s: NodeState) -> bool {
    s.searching && !s.in_matches
}

/// The fill of a node: selection first, then orphan preview, hover, search
/// match, dimming, and the category tint of explicit packages.
pub fn node_fill(s: NodeState) -> (r: NodeFill)
    ensures
        r == if s.selected {
            NodeFill::Selected
        } else if s.orphan {
            NodeFill::Orphan
        } else if s.hovered {
            NodeFill::Hovered
        } else if is_match(s) {
            NodeFill::Match
        } else if is_dimmed(s) {
            NodeFill::Dimmed
        } else if s.explicit && s.has_category {
            NodeFill::Category
        } else if s.explicit {
            NodeFill::Explicit
        } else {
            NodeFill::Dependency
        },
{
    if s.selected {
        NodeFill::Selected
    } else if s.orphan {
        NodeFill::Orphan
    } else if s.hovered {
        NodeFill::Hovered
    } else if s.searching && s.in_matches {
        NodeFill::Match
    } else if s.searching && !s.in_matches {
        NodeFill::Dimmed
    } else if s.explicit && s.has_category {
        NodeFill::Category
    } else if s.explicit {
        NodeFill::Explicit
    } else {
        NodeFill::Dependency
    }
}

/// The border of a node: protection first, then selection, orphan
/// preview, hover and search match.
pub fn node_border(s: NodeState) -> (r: NodeBorder)
    ensures
        r == if s.protected {
            NodeBorder::Protected
        } else if s.selected {
            NodeBorder::Selected
        } else if s.orphan {
            NodeBorder::Orphan
        } else if s.hovered {
            NodeBorder::Hovered
        } else if is_match(s) {
            NodeBorder::Match
        } else if s.explicit {
            NodeBorder::Explicit
        } else {
            NodeBorder::Dependency
        },
{
    if s.protected {
        NodeBorder::Protected
    } else if s.selected {
        NodeBorder::Selected
    } else if s.orphan {
        NodeBorder::Orphan
    } else if s.hovered {
        NodeBorder::Hovered
    } else if s.searching && s.in_matches {
        NodeBorder::Match
    } else if s.explicit {
        NodeBorder::Explicit
    } else {
        NodeBorder::Dependency
    }
}

/// The colour of a node's label.
pub fn label_tone(s: NodeState) -> (r: LabelTone)
    ensures
        r == if is_dimmed(s) {
            LabelTone::Dimmed
        } else if s.selected {
            LabelTone::Selected
        } else if s.explicit {
            LabelTone::Explicit
        } else {
            LabelTone::Dependency
        },
{
    if s.searching && !s.in_matches {
        LabelTone::Dimmed
    } else if s.selected {
        LabelTone::Selected
    } else if s.explicit {
        LabelTone::Explicit
    } else {
        LabelTone::Dependency
    }
}

// ---------------------------------------------------------------------------
// Texts about a package
// ---------------------------------------------------------------------------

/// `"<shown name> <version>"`.
pub fn title_text(p: &PackageInfo) -> (r: String)
    ensures
        r@ == shown_name(*p) + " "@ + p.version@,
{
    let mut v: Vec<char> = Vec::new();
    let shown = p.display_label();
    push_str(&mut v, shown.as_str());
    push_str(&mut v, " ");
    push_str(&mut v, p.version.as_str());
    string_of(&v)
}

/// The package name, when a different display name is shown instead.
pub fn technical_name(p: &PackageInfo) -> (r: Option<String>)
    ensures
        match r {
            Some(s) => p.display_name@.len() > 0 && p.display_name@ != p.name@ && s@ == p.name@,
            None => p.display_name@.len() == 0 || p.display_name@ == p.name@,
        },
{
    if !p.display_name.as_str().is_empty() && !(p.display_name == p.name) {
        Some(p.name.clone())
    } else {
        None
    }
}

/// `"<source> | <size> | Deps: <n> | Required by: <m>"`.
pub fn info_text(p: &PackageInfo) -> (r: String)
    ensures
        r@ == label_text(p.source) + " | "@ + byte_size_text(p.installed_size) + " | Deps: "@ + dec_text(
            p.depends@.len(),
        ) + " | Required by: "@ + dec_text(p.required_by@.len()),
{
    let mut v: Vec<char> = Vec::new();
    push_str(&mut v, p.source.label());
    push_str(&mut v, " | ");
    let size = format_size(p.installed_size);
    push_str(&mut v, size.as_str());
    push_str(&mut v, " | Deps: ");
    push_decimal(&mut v, p.depends.len() as u64);
    push_str(&mut v, " | Required by: ");
    push_decimal(&mut v, p.required_by.len() as u64);
    string_of(&v)
}

/// `"Installed: <date>"`, when the install date is known.
pub fn installed_text(p: &PackageInfo) -> (r: Option<String>)
    ensures
        p.install_date.is_none() ==> r.is_none(),
        p.install_date.is_some() ==> r.is_some() && r.unwrap()@.len() >= 11 && r.unwrap()@.take(11) == "Installed: "@
            && is_timestamp_text(p.install_date.unwrap() as int, r.unwrap()@.skip(11)),
{
    match p.install_date {
        Some(ts) => {
            let date = format_timestamp(ts);
            let mut v: Vec<char> = Vec::new();
            push_str(&mut v, "Installed: ");
            push_str(&mut v, date.as_str());
            proof {
                reveal_strlit("Installed: ");
                assert(v@.take(11) =~= "Installed: "@);
                assert(v@.skip(11) =~= date@);
            }
            Some(string_of(&v))
        },
        None => None,
    }
}

/// The first line of the description, when there is one.
pub fn description_line(p: &PackageInfo) -> (r: Option<String>)
    ensures
        match r {
            Some(s) => p.description@.len() > 0 && s@ == if lines(p.description@).len() > 0 {
                lines(p.description@)[0]
            } else {
                Seq::<char>::empty()
            },
            None => p.description@.len() == 0,
        },
{
    if p.description.as_str().is_empty() {
        return None;
    }
    let v = chars_of(p.description.as_str());
    let ls = lines_of(&v);
    if ls.len() > 0 {
        proof {
            assert(pieces(ls@)[0] == ls@[0]@);
        }
        Some(string_of(&ls[0]))
    } else {
        Some(String::new())
    }
}

} // verus!
