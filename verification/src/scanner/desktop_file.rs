//! Reading the `[Desktop Entry]` section of a `.desktop` file.

use vstd::prelude::*;

use crate::text::{
    chars_of, eq_str, lemma_strs_push, lines, lines_of, pieces, split_char, split_on, split_once,
    split_once_char, string_of, strs, trim, trim_chars,
};

verus! {

/// The keys of a `[Desktop Entry]` section that the scanners read.
pub struct DesktopFields {
    pub name: String,
    pub comment: String,
    pub icon: Option<String>,
    pub exec_command: String,
    pub categories: Vec<String>,
    pub no_display: bool,
    pub entry_type: String,
}

/// The fields as plain sequences.
#[verifier::ext_equal]
pub struct DesktopView {
    pub name: Seq<char>,
    pub comment: Seq<char>,
    pub icon: Option<Seq<char>>,
    pub exec_command: Seq<char>,
    pub categories: Seq<Seq<char>>,
    pub no_display: bool,
    pub entry_type: Seq<char>,
}

pub open spec fn desktop_view(f: DesktopFields) -> DesktopView {
    DesktopView {
        name: f.name@,
        comment: f.comment@,
        icon: match f.icon {
            Some(s) => Some(s@),
            None => None,
        },
        exec_command: f.exec_command@,
        categories: strs(f.categories@),
        no_display: f.no_display,
        entry_type: f.entry_type@,
    }
}

pub open spec fn empty_desktop() -> DesktopView {
    DesktopView {
        name: seq![],
        comment: seq![],
        icon: None,
        exec_command: seq![],
        categories: seq![],
        no_display: false,
        entry_type: seq![],
    }
}

/// The value of a `Categories` key: the `;`-separated names, trimmed, empty
/// ones left out.
pub open spec fn category_list(value: Seq<char>) -> Seq<Seq<char>> {
    split_on(value, ';').map_values(|c: Seq<char>| trim(c)).filter(|c: Seq<char>| c.len() > 0)
}

/// What one `key=value` line of the section does to the fields read so far
/// (`key` already trimmed).  Unknown keys are ignored.
pub open spec fn apply_desktop_key(f: DesktopView, key: Seq<char>, value: Seq<char>) -> DesktopView {
    if key == "Name"@ {
        DesktopView { name: trim(value), ..f }
    } else if key == "Comment"@ {
        DesktopView { comment: trim(value), ..f }
    } else if key == "Icon"@ {
        DesktopView { icon: Some(trim(value)), ..f }
    } else if key == "Exec"@ {
        DesktopView { exec_command: trim(value), ..f }
    } else if key == "Categories"@ {
        DesktopView { categories: category_list(value), ..f }
    } else if key == "NoDisplay"@ {
        DesktopView { no_display: trim(value) == "true"@, ..f }
    } else if key == "Type"@ {
        DesktopView { entry_type: trim(value), ..f }
    } else {
        f
    }
}

/// The fields after the given lines, and whether the last section header
/// seen was `[Desktop Entry]`.  Lines are trimmed; a line starting with `[`
/// opens another section; inside the entry section a line holding `=`
/// assigns a key.
pub open spec fn scan_desktop(ls: Seq<Seq<char>>) -> (DesktopView, bool)
    decreases ls.len(),
{
    if ls.len() == 0 {
        (empty_desktop(), false)
    } else {
        let (f, inside) = scan_desktop(ls.drop_last());
        let line = trim(ls.last());
        if line == "[Desktop Entry]"@ {
            (f, true)
        } else if line.len() > 0 && line[0] == '[' {
            (f, false)
        } else if !inside {
            (f, false)
        } else {
            match split_once(line, '=') {
                Some((k, v)) => (apply_desktop_key(f, trim(k), v), true),
                None => (f, true),
            }
        }
    }
}

/// The fields of a `.desktop` file's text.
pub open spec fn desktop_fields(content: Seq<char>) -> DesktopView {
    scan_desktop(lines(content)).0
}

/// The category names of a `Categories` value.
fn parse_categories(value: &Vec<char>) -> (r: Vec<String>)
    ensures
        strs(r@) == category_list(value@),
{
    let parts = split_char(value, ';');
    let ghost ps = pieces(parts@);
    let ghost trimmed = ps.map_values(|c: Seq<char>| trim(c));
    let mut out: Vec<String> = Vec::new();
    let mut i: usize = 0;
    proof {
        reveal_with_fuel(Seq::filter, 1);
        assert(trimmed.take(0).filter(|c: Seq<char>| c.len() > 0) =~= Seq::<Seq<char>>::empty());
    }
    while i < parts.len()
        invariant
            i <= parts@.len(),
            ps == pieces(parts@),
            ps == split_on(value@, ';'),
            trimmed == ps.map_values(|c: Seq<char>| trim(c)),
            strs(out@) == trimmed.take(i as int).filter(|c: Seq<char>| c.len() > 0),
        decreases parts@.len() - i,
    {
        let t = trim_chars(&parts[i]);
        proof {
            reveal_with_fuel(Seq::filter, 1);
            assert(trimmed.take(i + 1).drop_last() =~= trimmed.take(i as int));
            assert(trimmed.take(i + 1).last() == t@);
        }
        if t.len() > 0 {
            let s = string_of(&t);
            proof {
                lemma_strs_push(out@, s);
            }
            out.push(s);
        }
        i = i + 1;
    }
    proof {
        assert(trimmed.take(parts@.len() as int) =~= trimmed);
    }
    out
}

/// Applies one `key=value` line to the fields.
fn apply_key(key: &Vec<char>, value: &Vec<char>, f: &mut DesktopFields)
    ensures
        desktop_view(*final(f)) == apply_desktop_key(desktop_view(*old(f)), key@, value@),
{
    let ghost before = desktop_view(*f);
    if eq_str(key, "Name") {
        f.name = string_of(&trim_chars(value));
    } else if eq_str(key, "Comment") {
        f.comment = string_of(&trim_chars(value));
    } else if eq_str(key, "Icon") {
        f.icon = Some(string_of(&trim_chars(value)));
    } else if eq_str(key, "Exec") {
        f.exec_command = string_of(&trim_chars(value));
    } else if eq_str(key, "Categories") {
        f.categories = parse_categories(value);
    } else if eq_str(key, "NoDisplay") {
        let t = trim_chars(value);
        f.no_display = eq_str(&t, "true");
    } else if eq_str(key, "Type") {
        f.entry_type = string_of(&trim_chars(value));
    }
    proof {
        assert(desktop_view(*f) =~= apply_desktop_key(before, key@, value@));
    }
}

/// Reads the `[Desktop Entry]` section of a `.desktop` file.
pub fn parse_desktop_content(content: &str) -> (r: DesktopFields)
    ensures
        desktop_view(r) == desktop_fields(content@),
{
    let v = chars_of(content);
    let ls = lines_of(&v);
    let ghost all = pieces(ls@);
    let mut f = DesktopFields {
        name: String::new(),
        comment: String::new(),
        icon: None,
        exec_command: String::new(),
        categories: Vec::new(),
        no_display: false,
        entry_type: String::new(),
    };
    let mut inside = false;
    let mut i: usize = 0;
    proof {
        assert(desktop_view(f) =~= empty_desktop());
        assert(all.take(0) =~= Seq::<Seq<char>>::empty());
    }
    while i < ls.len()
        invariant
            i <= ls@.len(),
            all == pieces(ls@),
            all == lines(v@),
            v@ == content@,
            scan_desktop(all.take(i as int)) == (desktop_view(f), inside),
        decreases ls@.len() - i,
    {
        let line = trim_chars(&ls[i]);
        proof {
            assert(all.take(i + 1).drop_last() =~= all.take(i as int));
            assert(all.take(i + 1).last() == ls@[i as int]@);
        }
        if eq_str(&line, "[Desktop Entry]") {
            inside = true;
        } else if line.len() > 0 && line[0] == '[' {
            inside = false;
        } else if inside {
            match split_once_char(&line, '=') {
                Some((k, val)) => {
                    let key = trim_chars(&k);
                    apply_key(&key, &val, &mut f);
                },
                None => {},
            }
        }
        i = i + 1;
    }
    proof {
        assert(all.take(all.len() as int) =~= all);
    }
    f
}

} // verus!
