//! Interpreting the output of `pacman`.

use vstd::prelude::*;

use crate::model::package::{qualified_id_of, PackageInfo};
use crate::model::package_source::PackageSource;
use crate::text::{
    chars_of, copy_range, eq_str, int_text_value, lemma_pieces_push, lemma_strs_push, lines, lines_of,
    parse_i64, pieces, split_char, split_on, split_once, split_once_char, split_whitespace, split_ws,
    string_of, strings_of, strs, trim, trim_chars, blocks, split_blocks, push_str, starts_with, has_prefix,
};
use crate::model::dep_tree::contains_string;

verus! {

/// Reads the packages that pacman installed (official and AUR).
pub struct PacmanScanner;

impl PacmanScanner {
    /// The source of the packages this scanner finds.
    pub fn source(&self) -> (r: PackageSource)
        ensures
            r == PackageSource::Pacman,
    {
        PackageSource::Pacman
    }

    /// The scanner's name for progress messages.
    pub fn label(&self) -> (r: &'static str)
        ensures
            r@ == "Pacman"@,
    {
        "Pacman"
    }
}

// ---------------------------------------------------------------------------
// Dates
// ---------------------------------------------------------------------------

pub open spec fn is_leap(y: int) -> bool {
    (y % 4 == 0 && y % 100 != 0) || y % 400 == 0
}

pub open spec fn year_days(y: int) -> int {
    if is_leap(y) {
        366
    } else {
        365
    }
}

/// Days from 1970-01-01 to January 1st of year `y` (0 for years up to 1970).
pub open spec fn days_before_year(y: int) -> int
    decreases y - 1970,
{
    if y <= 1970 {
        0
    } else {
        days_before_year(y - 1) + year_days(y - 1)
    }
}

/// Days in the months of a year before month `m` (1 to 12).
pub open spec fn days_before_month(m: int, leap: bool) -> int {
    let feb: int = if leap {
        29
    } else {
        28
    };
    if m <= 1 {
        0
    } else if m == 2 {
        31
    } else if m == 3 {
        31 + feb
    } else if m == 4 {
        62 + feb
    } else if m == 5 {
        92 + feb
    } else if m == 6 {
        123 + feb
    } else if m == 7 {
        153 + feb
    } else if m == 8 {
        184 + feb
    } else if m == 9 {
        215 + feb
    } else if m == 10 {
        245 + feb
    } else if m == 11 {
        276 + feb
    } else {
        306 + feb
    }
}

/// The number of an English month abbreviation, or 0.
pub open spec fn month_number(m: Seq<char>) -> int {
    if m == "Jan"@ {
        1
    } else if m == "Feb"@ {
        2
    } else if m == "Mar"@ {
        3
    } else if m == "Apr"@ {
        4
    } else if m == "May"@ {
        5
    } else if m == "Jun"@ {
        6
    } else if m == "Jul"@ {
        7
    } else if m == "Aug"@ {
        8
    } else if m == "Sep"@ {
        9
    } else if m == "Oct"@ {
        10
    } else if m == "Nov"@ {
        11
    } else if m == "Dec"@ {
        12
    } else {
        0
    }
}

/// The hour after applying an AM/PM marker.
pub open spec fn clock_hour(hour: int, marker: Seq<char>) -> int {
    if marker == "PM"@ && hour != 12 {
        hour + 12
    } else if marker == "AM"@ && hour == 12 {
        0
    } else {
        hour
    }
}

/// Seconds since the Unix epoch for an install date such as
/// `"Thu 27 Feb 2025 03:45:12 PM UTC"`: words 2 to 6 are the day, month,
/// year, `hh:mm:ss` and AM/PM.  `None` when a part does not read or the
/// value does not fit in an `i64`.
pub open spec fn install_date_value(s: Seq<char>) -> Option<int> {
    let parts = split_ws(s);
    if parts.len() < 6 {
        None
    } else {
        let day = int_text_value(parts[1]);
        let month = month_number(parts[2]);
        let year = int_text_value(parts[3]);
        let tp = split_on(parts[4], ':');
        if day.is_none() || month == 0 || year.is_none() || tp.len() != 3 {
            None
        } else {
            let hour = int_text_value(tp[0]);
            let min = int_text_value(tp[1]);
            let sec = int_text_value(tp[2]);
            if hour.is_none() || min.is_none() || sec.is_none() {
                None
            } else {
                let y = year.unwrap();
                let days = days_before_year(y) + days_before_month(month, is_leap(y)) + day.unwrap()
                    - 1;
                let v = days * 86400 + clock_hour(hour.unwrap(), parts[5]) * 3600 + min.unwrap() * 60
                    + sec.unwrap();
                if i64::MIN <= v <= i64::MAX {
                    Some(v)
                } else {
                    None
                }
            }
        }
    }
}

pub proof fn lemma_days_before_year_step(y: int)
    requires
        y >= 1970,
    ensures
        days_before_year(y + 1) == days_before_year(y) + year_days(y),
{
}

pub proof fn lemma_days_before_year_bound(y: int)
    requires
        y >= 1970,
    ensures
        0 <= days_before_year(y) <= 366 * (y - 1970),
    decreases y - 1970,
{
    if y > 1970 {
        lemma_days_before_year_bound(y - 1);
    }
}

fn month_of(m: &Vec<char>) -> (r: i64)
    ensures
        r == month_number(m@),
{
    if eq_str(m, "Jan") {
        1
    } else if eq_str(m, "Feb") {
        2
    } else if eq_str(m, "Mar") {
        3
    } else if eq_str(m, "Apr") {
        4
    } else if eq_str(m, "May") {
        5
    } else if eq_str(m, "Jun") {
        6
    } else if eq_str(m, "Jul") {
        7
    } else if eq_str(m, "Aug") {
        8
    } else if eq_str(m, "Sep") {
        9
    } else if eq_str(m, "Oct") {
        10
    } else if eq_str(m, "Nov") {
        11
    } else if eq_str(m, "Dec") {
        12
    } else {
        0
    }
}

pub fn leap(y: i64) -> (r: bool)
    ensures
        r == is_leap(y as int),
{
    let a: u64 = if y < 0 {
        (0 - (y as i128)) as u64
    } else {
        y as u64
    };
    proof {
        assert(a as int == y || a as int == -y);
        assert((a as int) % 4 == 0 <==> (y as int) % 4 == 0);
        assert((a as int) % 100 == 0 <==> (y as int) % 100 == 0);
        assert((a as int) % 400 == 0 <==> (y as int) % 400 == 0);
    }
    (a % 4 == 0 && a % 100 != 0) || a % 400 == 0
}

/// Parses a pacman install date into seconds since the Unix epoch.
pub fn parse_install_date(s: &str) -> (r: Option<i64>)
    ensures
        match r {
            Some(v) => install_date_value(s@) == Some(v as int),
            None => install_date_value(s@).is_none(),
        },
{
    let v = chars_of(s);
    let parts = split_whitespace(&v);
    if parts.len() < 6 {
        return None;
    }
    let ghost ps = pieces(parts@);
    proof {
        assert(ps[1] == parts@[1]@ && ps[2] == parts@[2]@ && ps[3] == parts@[3]@);
        assert(ps[4] == parts@[4]@ && ps[5] == parts@[5]@);
    }
    let day = match parse_i64(&parts[1]) {
        Some(d) => d,
        None => return None,
    };
    let month = month_of(&parts[2]);
    if month == 0 {
        return None;
    }
    let year = match parse_i64(&parts[3]) {
        Some(y) => y,
        None => return None,
    };
    let tp = split_char(&parts[4], ':');
    if tp.len() != 3 {
        return None;
    }
    proof {
        assert(pieces(tp@)[0] == tp@[0]@ && pieces(tp@)[1] == tp@[1]@ && pieces(tp@)[2] == tp@[2]@);
    }
    let hour = match parse_i64(&tp[0]) {
        Some(h) => h,
        None => return None,
    };
    let min = match parse_i64(&tp[1]) {
        Some(m) => m,
        None => return None,
    };
    let sec = match parse_i64(&tp[2]) {
        Some(x) => x,
        None => return None,
    };
    let mut h: i128 = hour as i128;
    if eq_str(&parts[5], "PM") && hour != 12 {
        h = h + 12;
    } else if eq_str(&parts[5], "AM") && hour == 12 {
        h = 0;
    }
    proof {
        assert(h == clock_hour(hour as int, ps[5]));
    }
    let mut total: i128 = 0;
    let mut y: i64 = 1970;
    while y < year
        invariant
            1970 <= y,
            year >= 1970 ==> y <= year,
            year < 1970 ==> y == 1970,
            total == days_before_year(y as int),
            0 <= total <= 366 * (y - 1970),
        decreases year - y,
    {
        proof {
            lemma_days_before_year_step(y as int);
        }
        total = total + if leap(y) {
            366
        } else {
            365
        };
        y = y + 1;
    }
    proof {
        if year >= 1970 {
            assert(y == year);
        } else {
            assert(y == 1970);
            assert(days_before_year(year as int) == 0);
        }
    }
    let lp = leap(year);
    let dm: i128 = if month <= 1 {
        0
    } else if month == 2 {
        31
    } else if month == 3 {
        59
    } else if month == 4 {
        90
    } else if month == 5 {
        120
    } else if month == 6 {
        151
    } else if month == 7 {
        181
    } else if month == 8 {
        212
    } else if month == 9 {
        243
    } else if month == 10 {
        273
    } else if month == 11 {
        304
    } else {
        334
    };
    let dm = if lp && month > 2 {
        dm + 1
    } else {
        dm
    };
    proof {
        assert(dm == days_before_month(month as int, is_leap(year as int)));
    }
    let days: i128 = total + dm + day as i128 - 1;
    let value: i128 = days * 86400 + h * 3600 + min as i128 * 60 + sec as i128;
    if value < -0x8000_0000_0000_0000i128 || value > 0x7fff_ffff_ffff_ffffi128 {
        return None;
    }
    Some(value as i64)
}

// ---------------------------------------------------------------------------
// Package blocks
// ---------------------------------------------------------------------------

/// `s` up to its first `>`, `<` or `=`: a dependency without its version
/// constraint.
pub open spec fn strip_constraint(s: Seq<char>) -> Seq<char>
    decreases s.len(),
{
    if s.len() == 0 {
        s
    } else if s[0] == '>' || s[0] == '<' || s[0] == '=' {
        seq![]
    } else {
        seq![s[0]] + strip_constraint(s.drop_first())
    }
}

pub fn strip_version(v: &Vec<char>) -> (r: Vec<char>)
    ensures
        r@ == strip_constraint(v@),
{
    let mut i: usize = 0;
    proof {
        assert(v@.skip(0) =~= v@);
        assert(v@.take(0) + strip_constraint(v@.skip(0)) =~= strip_constraint(v@));
    }
    while i < v.len() && !(v[i] == '>' || v[i] == '<' || v[i] == '=')
        invariant
            i <= v.len(),
            v@.take(i as int) + strip_constraint(v@.skip(i as int)) == strip_constraint(v@),
        decreases v.len() - i,
    {
        proof {
            assert(v@.skip(i as int).drop_first() =~= v@.skip(i + 1));
            assert(v@.take(i + 1) =~= v@.take(i as int) + seq![v@[i as int]]);
        }
        i = i + 1;
    }
    proof {
        if i < v.len() {
            assert(strip_constraint(v@.skip(i as int)) =~= Seq::<char>::empty());
        } else {
            assert(v@.skip(i as int) =~= Seq::<char>::empty());
        }
        assert(v@.take(i as int) + seq![] =~= v@.take(i as int));
    }
    copy_range(v, 0, i)
}

/// The fields read from one `pacman -Qi` block.
pub struct PacmanFields {
    pub name: String,
    pub version: String,
    pub description: String,
    /// The text of the "Installed Size" field, e.g. `"245.00 MiB"`.
    pub installed_size: String,
    pub depends: Vec<String>,
    pub required_by: Vec<String>,
    pub provides: Vec<String>,
    pub install_date: Option<i64>,
}

/// The fields as plain sequences.
#[verifier::ext_equal]
pub struct FieldsView {
    pub name: Seq<char>,
    pub version: Seq<char>,
    pub description: Seq<char>,
    pub installed_size: Seq<char>,
    pub depends: Seq<Seq<char>>,
    pub required_by: Seq<Seq<char>>,
    pub provides: Seq<Seq<char>>,
    pub install_date: Option<int>,
}

pub open spec fn fields_view(f: PacmanFields) -> FieldsView {
    FieldsView {
        name: f.name@,
        version: f.version@,
        description: f.description@,
        installed_size: f.installed_size@,
        depends: strs(f.depends@),
        required_by: strs(f.required_by@),
        provides: strs(f.provides@),
        install_date: match f.install_date {
            Some(d) => Some(d as int),
            None => None,
        },
    }
}

pub open spec fn no_fields() -> FieldsView {
    FieldsView {
        name: seq![],
        version: seq![],
        description: seq![],
        installed_size: seq![],
        depends: seq![],
        required_by: seq![],
        provides: seq![],
        install_date: None,
    }
}

/// The names of a list, each without its version constraint.
pub open spec fn unconstrained(names: Seq<Seq<char>>) -> Seq<Seq<char>> {
    names.map_values(|n: Seq<char>| strip_constraint(n))
}

/// What a field with its complete value does to the record.  A list field
/// whose value is `None` leaves the record as it is; unknown fields are
/// ignored.
pub open spec fn apply_field(f: FieldsView, key: Seq<char>, value: Seq<char>) -> FieldsView {
    if key == "Name"@ {
        FieldsView { name: value, ..f }
    } else if key == "Version"@ {
        FieldsView { version: value, ..f }
    } else if key == "Description"@ {
        FieldsView { description: value, ..f }
    } else if key == "Installed Size"@ {
        FieldsView { installed_size: value, ..f }
    } else if key == "Install Date"@ {
        FieldsView { install_date: install_date_value(value), ..f }
    } else if key == "Depends On"@ && value != "None"@ {
        FieldsView { depends: unconstrained(split_ws(value)), ..f }
    } else if key == "Required By"@ && value != "None"@ {
        FieldsView { required_by: split_ws(value), ..f }
    } else if key == "Provides"@ && value != "None"@ {
        FieldsView { provides: unconstrained(split_ws(value)), ..f }
    } else {
        f
    }
}

/// The record after the given lines, with the field being read and its
/// value so far: a line holding `:` starts a new field (key and value
/// trimmed) and applies the previous one; any other line continues the
/// value, joined by one space.
pub open spec fn scan_lines(ls: Seq<Seq<char>>) -> (FieldsView, Seq<char>, Seq<char>)
    decreases ls.len(),
{
    if ls.len() == 0 {
        (no_fields(), seq![], seq![])
    } else {
        let (f, k, v) = scan_lines(ls.drop_last());
        let line = ls.last();
        match split_once(line, ':') {
            Some((a, b)) => (apply_field(f, k, v), trim(a), trim(b)),
            None => (f, k, if v.len() > 0 {
                v + " "@ + trim(line)
            } else {
                trim(line)
            }),
        }
    }
}

/// The record read from a block of `pacman -Qi` output.
pub open spec fn block_fields(block: Seq<char>) -> FieldsView {
    let (f, k, v) = scan_lines(lines(block));
    apply_field(f, k, v)
}

/// The "Required By" field sets the list of dependents to the words of its
/// value, unless the value is `None`; no other field, and no `None` value,
/// changes that list.
pub proof fn lemma_required_by_field(f: FieldsView, key: Seq<char>, value: Seq<char>)
    ensures
        key == "Required By"@ && value != "None"@ ==> apply_field(f, key, value).required_by == split_ws(
            value,
        ),
        key != "Required By"@ || value == "None"@ ==> apply_field(f, key, value).required_by
            == f.required_by,
{
    reveal_strlit("Required By");
    reveal_strlit("Name");
    reveal_strlit("Version");
    reveal_strlit("Description");
    reveal_strlit("Installed Size");
    reveal_strlit("Install Date");
    reveal_strlit("Depends On");
    reveal_strlit("Provides");
    reveal_strlit("None");
    assert("Name"@.len() == 4 && "Version"@.len() == 7 && "Description"@.len() == 11);
    assert("Installed Size"@.len() == 14 && "Install Date"@.len() == 12 && "Depends On"@.len() == 10);
    assert("Required By"@.len() == 11 && "Provides"@.len() == 8);
    assert("Required By"@ != "Description"@) by {
        assert("Required By"@[0] != "Description"@[0]);
    }
}

/// When the last line of a block is a field line `key : value`, the record
/// read from the block holds that field's (trimmed) value: the text for
/// the name and version, and the words of the value for the lists of
/// dependencies, dependents and provided names, unless the value is
/// `None`.
pub proof fn lemma_last_field_read(block: Seq<char>, a: Seq<char>, b: Seq<char>)
    requires
        lines(block).len() > 0,
        split_once(lines(block).last(), ':') == Some((a, b)),
    ensures
        trim(a) == "Name"@ ==> block_fields(block).name == trim(b),
        trim(a) == "Version"@ ==> block_fields(block).version == trim(b),
        trim(a) == "Required By"@ && trim(b) != "None"@ ==> block_fields(block).required_by == split_ws(
            trim(b),
        ),
        trim(a) == "Depends On"@ && trim(b) != "None"@ ==> block_fields(block).depends == unconstrained(
            split_ws(trim(b)),
        ),
        trim(a) == "Provides"@ && trim(b) != "None"@ ==> block_fields(block).provides == unconstrained(
            split_ws(trim(b)),
        ),
{
    reveal_strlit("Required By");
    reveal_strlit("Name");
    reveal_strlit("Version");
    reveal_strlit("Description");
    reveal_strlit("Installed Size");
    reveal_strlit("Install Date");
    reveal_strlit("Depends On");
    reveal_strlit("Provides");
    reveal_strlit("None");
    let ls = lines(block);
    let (f, k, v) = scan_lines(ls);
    assert(k == trim(a) && v == trim(b));
    assert(block_fields(block) == apply_field(f, k, v));
    assert("Name"@.len() == 4 && "Version"@.len() == 7 && "Description"@.len() == 11);
    assert("Installed Size"@.len() == 14 && "Install Date"@.len() == 12 && "Depends On"@.len() == 10);
    assert("Required By"@.len() == 11 && "Provides"@.len() == 8);
    assert("Required By"@ != "Description"@) by {
        assert("Required By"@[0] != "Description"@[0]);
    }
}

fn owned_chars(v: &Vec<char>) -> (r: String)
    ensures
        r@ == v@,
{
    string_of(v)
}

fn words_unconstrained(v: &Vec<char>) -> (r: Vec<String>)
    ensures
        strs(r@) == unconstrained(split_ws(v@)),
{
    let ws = split_whitespace(v);
    let mut out: Vec<Vec<char>> = Vec::new();
    let mut i: usize = 0;
    while i < ws.len()
        invariant
            i <= ws@.len(),
            pieces(ws@) == split_ws(v@),
            pieces(out@) == unconstrained(pieces(ws@).take(i as int)),
        decreases ws@.len() - i,
    {
        let w = strip_version(&ws[i]);
        proof {
            lemma_pieces_push(out@, w);
            assert(pieces(ws@)[i as int] == ws@[i as int]@);
            assert(unconstrained(pieces(ws@).take(i + 1)) =~= unconstrained(pieces(ws@).take(i as int)).push(
                strip_constraint(ws@[i as int]@),
            ));
        }
        out.push(w);
        i = i + 1;
    }
    proof {
        assert(pieces(ws@).take(ws@.len() as int) =~= pieces(ws@));
    }
    strings_of(&out)
}

fn words(v: &Vec<char>) -> (r: Vec<String>)
    ensures
        strs(r@) == split_ws(v@),
{
    let ws = split_whitespace(v);
    strings_of(&ws)
}

/// Applies one complete field to the record.
fn process_field(key: &Vec<char>, value: &Vec<char>, f: &mut PacmanFields)
    ensures
        fields_view(*final(f)) == apply_field(fields_view(*old(f)), key@, value@),
{
    let ghost before = fields_view(*f);
    if eq_str(key, "Name") {
        f.name = owned_chars(value);
    } else if eq_str(key, "Version") {
        f.version = owned_chars(value);
    } else if eq_str(key, "Description") {
        f.description = owned_chars(value);
    } else if eq_str(key, "Installed Size") {
        f.installed_size = owned_chars(value);
    } else if eq_str(key, "Install Date") {
        let s = owned_chars(value);
        f.install_date = parse_install_date(s.as_str());
    } else if eq_str(key, "Depends On") && !eq_str(value, "None") {
        f.depends = words_unconstrained(value);
    } else if eq_str(key, "Required By") && !eq_str(value, "None") {
        f.required_by = words(value);
    } else if eq_str(key, "Provides") && !eq_str(value, "None") {
        f.provides = words_unconstrained(value);
    }
    proof {
        assert(fields_view(*f) =~= apply_field(before, key@, value@));
    }
}

/// Reads the fields of one `pacman -Qi` block.
pub fn read_block_fields(block: &str) -> (r: PacmanFields)
    ensures
        fields_view(r) == block_fields(block@),
{
    let v = chars_of(block);
    let ls = lines_of(&v);
    let mut f = PacmanFields {
        name: String::new(),
        version: String::new(),
        description: String::new(),
        installed_size: String::new(),
        depends: Vec::new(),
        required_by: Vec::new(),
        provides: Vec::new(),
        install_date: None,
    };
    let mut key: Vec<char> = Vec::new();
    let mut value: Vec<char> = Vec::new();
    let ghost all = pieces(ls@);
    let mut i: usize = 0;
    proof {
        assert(fields_view(f) =~= no_fields());
        assert(all.take(0) =~= Seq::<Seq<char>>::empty());
    }
    while i < ls.len()
        invariant
            i <= ls@.len(),
            all == pieces(ls@),
            all == lines(v@),
            scan_lines(all.take(i as int)) == (fields_view(f), key@, value@),
        decreases ls@.len() - i,
    {
        let line = &ls[i];
        proof {
            assert(all.take(i + 1).drop_last() =~= all.take(i as int));
            assert(all.take(i + 1).last() == line@);
        }
        match split_once_char(line, ':') {
            Some((a, b)) => {
                process_field(&key, &value, &mut f);
                key = trim_chars(&a);
                value = trim_chars(&b);
            },
            None => {
                let t = trim_chars(line);
                if value.len() > 0 {
                    let ghost v0 = value@;
                    value.push(' ');
                    crate::text::push_all(&mut value, &t);
                    proof {
                        reveal_strlit(" ");
                        assert(value@ =~= v0 + " "@ + trim(line@));
                    }
                } else {
                    value = t;
                }
            },
        }
        i = i + 1;
    }
    proof {
        assert(all.take(all.len() as int) =~= all);
    }
    process_field(&key, &value, &mut f);
    f
}

/// A package read from `pacman -Qi`, before its size is known in bytes.
pub struct PacmanEntry {
    pub fields: PacmanFields,
    pub is_explicit: bool,
    pub source: PackageSource,
}

/// Reads one `pacman -Qi` block; `None` when it names no package.  A
/// package is explicit when `explicit` lists it, and from the AUR when
/// `foreign` lists it.
pub fn parse_package_block(block: &str, explicit: &Vec<String>, foreign: &Vec<String>) -> (r:
    Option<PacmanEntry>)
    ensures
        match r {
            None => block_fields(block@).name.len() == 0,
            Some(e) => {
                &&& fields_view(e.fields) == block_fields(block@)
                &&& block_fields(block@).name.len() > 0
                &&& e.is_explicit == strs(explicit@).contains(block_fields(block@).name)
                &&& e.source == if strs(foreign@).contains(block_fields(block@).name) {
                    PackageSource::Aur
                } else {
                    PackageSource::Pacman
                }
            },
        },
{
    let fields = read_block_fields(block);
    if fields.name.as_str().is_empty() {
        return None;
    }
    let is_explicit = contains_string(explicit, &fields.name);
    let source = if contains_string(foreign, &fields.name) {
        PackageSource::Aur
    } else {
        PackageSource::Pacman
    };
    Some(PacmanEntry { fields, is_explicit, source })
}

/// The package record of an entry with its installed size in bytes.
pub fn package_info(e: PacmanEntry, installed_size: u64) -> (p: PackageInfo)
    ensures
        p.id@ == qualified_id_of(e.source, e.fields.name@),
        p.name == e.fields.name,
        p.display_name@ == Seq::<char>::empty(),
        p.version == e.fields.version,
        p.description == e.fields.description,
        p.categories@.len() == 0,
        p.icon_name.is_none(),
        p.source == e.source,
        p.installed_size == installed_size,
        p.depends == e.fields.depends,
        p.required_by == e.fields.required_by,
        p.provides == e.fields.provides,
        p.is_explicit == e.is_explicit,
        !p.is_protected,
        p.install_path.is_none(),
        p.install_date == e.fields.install_date,
{
    let id = crate::model::package::make_qualified_id(e.source, e.fields.name.as_str());
    PackageInfo {
        id,
        name: e.fields.name,
        display_name: String::new(),
        version: e.fields.version,
        description: e.fields.description,
        categories: Vec::new(),
        icon_name: None,
        source: e.source,
        installed_size,
        depends: e.fields.depends,
        required_by: e.fields.required_by,
        provides: e.fields.provides,
        is_explicit: e.is_explicit,
        is_protected: false,
        install_path: None,
        install_date: e.fields.install_date,
    }
}

/// An entry as plain values.
pub open spec fn entry_view(e: PacmanEntry) -> (FieldsView, bool, PackageSource) {
    (fields_view(e.fields), e.is_explicit, e.source)
}

/// The entries that the blocks of `pacman -Qi` output describe: blocks that
/// are blank or name no package are skipped.
pub open spec fn output_entries(
    bs: Seq<Seq<char>>,
    explicit: Seq<Seq<char>>,
    foreign: Seq<Seq<char>>,
) -> Seq<(FieldsView, bool, PackageSource)>
    decreases bs.len(),
{
    if bs.len() == 0 {
        seq![]
    } else {
        let rest = output_entries(bs.drop_last(), explicit, foreign);
        let f = block_fields(bs.last());
        if trim(bs.last()).len() == 0 || f.name.len() == 0 {
            rest
        } else {
            rest.push(
                (
                    f,
                    explicit.contains(f.name),
                    if foreign.contains(f.name) {
                        PackageSource::Aur
                    } else {
                        PackageSource::Pacman
                    },
                ),
            )
        }
    }
}

/// Reads all packages from `pacman -Qi` output: blocks separated by blank
/// lines.
pub fn parse_pacman_output(stdout: &str, explicit: &Vec<String>, foreign: &Vec<String>) -> (r: Vec<
    PacmanEntry,
>)
    ensures
        r@.map_values(|e: PacmanEntry| entry_view(e)) == output_entries(
            blocks(stdout@),
            strs(explicit@),
            strs(foreign@),
        ),
{
    let v = chars_of(stdout);
    let bs = split_blocks(&v);
    let ghost all = pieces(bs@);
    let mut out: Vec<PacmanEntry> = Vec::new();
    let mut i: usize = 0;
    while i < bs.len()
        invariant
            i <= bs@.len(),
            all == pieces(bs@),
            all == blocks(v@),
            v@ == stdout@,
            out@.map_values(|e: PacmanEntry| entry_view(e)) == output_entries(
                all.take(i as int),
                strs(explicit@),
                strs(foreign@),
            ),
        decreases bs@.len() - i,
    {
        let b = &bs[i];
        proof {
            assert(all.take(i + 1).drop_last() =~= all.take(i as int));
            assert(all.take(i + 1).last() == b@);
        }
        let t = trim_chars(b);
        if t.len() > 0 {
            let text = string_of(b);
            match parse_package_block(text.as_str(), explicit, foreign) {
                Some(e) => {
                    let ghost prev = out@;
                    out.push(e);
                    proof {
                        assert(out@.map_values(|e: PacmanEntry| entry_view(e)) =~= prev.map_values(
                            |e: PacmanEntry| entry_view(e),
                        ).push(entry_view(e)));
                    }
                },
                None => {},
            }
        }
        i = i + 1;
    }
    proof {
        assert(all.take(all.len() as int) =~= all);
    }
    out
}

/// The lines of a text (`str::lines`), e.g. package names one per line.
pub fn output_lines(text: &str) -> (r: Vec<String>)
    ensures
        strs(r@) == lines(text@),
{
    let v = chars_of(text);
    let ls = lines_of(&v);
    strings_of(&ls)
}

/// The byte multiplier of a unit in pacman size fields, or 0 when the unit
/// is unknown.
pub open spec fn pacman_unit(u: Seq<char>) -> u64 {
    if u == "B"@ {
        1
    } else if u == "KiB"@ {
        1024
    } else if u == "MiB"@ {
        1048576
    } else if u == "GiB"@ {
        1073741824
    } else if u == "TiB"@ {
        1099511627776
    } else {
        0
    }
}

fn pacman_unit_of(u: &Vec<char>) -> (r: u64)
    ensures
        r == pacman_unit(u@),
{
    if eq_str(u, "B") {
        1
    } else if eq_str(u, "KiB") {
        1024
    } else if eq_str(u, "MiB") {
        1048576
    } else if eq_str(u, "GiB") {
        1073741824
    } else if eq_str(u, "TiB") {
        1099511627776
    } else {
        0
    }
}

/// Splits a size such as `"245.00 MiB"` into its number text and the
/// multiplier of its unit (0 for an unknown unit).  `None` unless the text
/// has exactly two words; such a size counts as 0 bytes.
pub fn parse_size_parts(s: &str) -> (r: Option<(String, u64)>)
    ensures
        match r {
            Some((n, m)) => split_ws(s@).len() == 2 && n@ == split_ws(s@)[0] && m == pacman_unit(
                split_ws(s@)[1],
            ),
            None => split_ws(s@).len() != 2,
        },
{
    let v = chars_of(s);
    let parts = split_whitespace(&v);
    if parts.len() != 2 {
        return None;
    }
    proof {
        assert(pieces(parts@)[0] == parts@[0]@ && pieces(parts@)[1] == parts@[1]@);
    }
    Some((string_of(&parts[0]), pacman_unit_of(&parts[1])))
}

// ---------------------------------------------------------------------------
// Protected packages
// ---------------------------------------------------------------------------

/// The dependencies named on the "Depends On" lines of `pacman -Qi base`
/// output, without version constraints, leaving out empty names and `None`.
pub open spec fn base_deps(ls: Seq<Seq<char>>) -> Seq<Seq<char>>
    decreases ls.len(),
{
    if ls.len() == 0 {
        seq![]
    } else {
        let rest = base_deps(ls.drop_last());
        let line = ls.last();
        let ps = split_on(line, ':');
        if starts_with(line, "Depends On"@) && ps.len() >= 2 {
            rest + unconstrained(split_ws(ps[1])).filter(
                |n: Seq<char>| n.len() > 0 && n != "None"@,
            )
        } else {
            rest
        }
    }
}

/// The always-protected names that follow the dependencies of `base`.
pub open spec fn core_names() -> Seq<Seq<char>> {
    seq!["linux"@, "linux-headers"@, "linux-firmware"@, "pacman"@, "yay"@, "paru"@]
}

fn push_owned(v: &mut Vec<String>, s: &str)
    ensures
        strs(final(v)@) == strs(old(v)@).push(s@),
{
    let o = s.to_owned();
    proof {
        lemma_strs_push(v@, o);
    }
    v.push(o);
}

/// The names of packages that must not be removed: `base`, the packages
/// `base` depends on (read from the output of `pacman -Qi base`, when it
/// could be run), the kernel and the package managers.
pub fn protected_names(base_info: Option<&str>) -> (r: Vec<String>)
    ensures
        strs(r@) == seq!["base"@] + (match base_info {
            Some(t) => base_deps(lines(t@)),
            None => seq![],
        }) + core_names(),
{
    let mut r: Vec<String> = Vec::new();
    push_owned(&mut r, "base");
    let ghost head = strs(r@);
    match base_info {
        Some(text) => {
            let v = chars_of(text);
            let ls = lines_of(&v);
            let ghost all = pieces(ls@);
            let prefix = chars_of("Depends On");
            let mut i: usize = 0;
            proof {
                assert(head + base_deps(all.take(0)) =~= head);
            }
            while i < ls.len()
                invariant
                    i <= ls@.len(),
                    all == pieces(ls@),
                    prefix@ == "Depends On"@,
                    strs(r@) == head + base_deps(all.take(i as int)),
                decreases ls@.len() - i,
            {
                let line = &ls[i];
                proof {
                    assert(all.take(i + 1).drop_last() =~= all.take(i as int));
                    assert(all.take(i + 1).last() == line@);
                }
                let ps = split_char(line, ':');
                if has_prefix(line, &prefix) && ps.len() >= 2 {
                    proof {
                        assert(pieces(ps@)[1] == ps@[1]@);
                    }
                    let ws = split_whitespace(&ps[1]);
                    let ghost start = strs(r@);
                    let ghost names = unconstrained(pieces(ws@));
                    let mut k: usize = 0;
                    proof {
                        reveal_with_fuel(Seq::filter, 1);
                        assert(start + names.take(0).filter(|n: Seq<char>| n.len() > 0 && n != "None"@) =~= start);
                    }
                    while k < ws.len()
                        invariant
                            k <= ws@.len(),
                            names == unconstrained(pieces(ws@)),
                            strs(r@) == start + names.take(k as int).filter(
                                |n: Seq<char>| n.len() > 0 && n != "None"@,
                            ),
                        decreases ws@.len() - k,
                    {
                        let name = strip_version(&ws[k]);
                        proof {
                            reveal_with_fuel(Seq::filter, 1);
                            assert(names.take(k + 1).drop_last() =~= names.take(k as int));
                            assert(names.take(k + 1).last() == name@);
                        }
                        if name.len() > 0 && !eq_str(&name, "None") {
                            let o = string_of(&name);
                            proof {
                                lemma_strs_push(r@, o);
                            }
                            r.push(o);
                        }
                        k = k + 1;
                    }
                    proof {
                        assert(names.take(ws@.len() as int) =~= names);
                        assert(names =~= unconstrained(split_ws(ps@[1]@)));
                    }
                }
                i = i + 1;
            }
            proof {
                assert(all.take(all.len() as int) =~= all);
            }
        },
        None => {},
    }
    let ghost mid = strs(r@);
    push_owned(&mut r, "linux");
    push_owned(&mut r, "linux-headers");
    push_owned(&mut r, "linux-firmware");
    push_owned(&mut r, "pacman");
    push_owned(&mut r, "yay");
    push_owned(&mut r, "paru");
    proof {
        assert(strs(r@) =~= mid + core_names());
    }
    r
}

} // verus!
