//! Applications installed with Flatpak, read from
//! `flatpak list --app --columns=application,name,version,size`.

use vstd::prelude::*;

use crate::model::package::{make_qualified_id, qualified_id_of, PackageInfo};
use crate::model::package_source::PackageSource;
use crate::text::{
    chars_of, eq_str, lemma_pieces_push, lines, lines_of, pieces, split_char, split_on, split_whitespace,
    split_ws, string_of, trim, trim_chars,
};

verus! {

/// Reads Flatpak applications.
pub struct FlatpakScanner;

impl FlatpakScanner {
    /// The source of the packages this scanner finds.
    pub fn source(&self) -> (r: PackageSource)
        ensures
            r == PackageSource::Flatpak,
    {
        PackageSource::Flatpak
    }

    /// The scanner's name for progress messages.
    pub fn label(&self) -> (r: &'static str)
        ensures
            r@ == "Flatpak"@,
    {
        "Flatpak"
    }
}

/// One row of the application list.
pub struct FlatpakRow {
    pub app_id: String,
    pub name: String,
    pub version: String,
    /// The size column, e.g. `"842.3 MB"`.
    pub size_text: String,
}

/// The columns of a list line (tab-separated, trimmed): `None` when it has
/// fewer than two; a missing version reads as empty and a missing size as
/// `"0"`.
pub open spec fn row_of(line: Seq<char>) -> Option<(Seq<char>, Seq<char>, Seq<char>, Seq<char>)> {
    let parts = split_on(line, '\t');
    if parts.len() < 2 {
        None
    } else {
        Some(
            (
                trim(parts[0]),
                trim(parts[1]),
                if parts.len() > 2 {
                    trim(parts[2])
                } else {
                    seq![]
                },
                if parts.len() > 3 {
                    trim(parts[3])
                } else {
                    "0"@
                },
            ),
        )
    }
}

pub open spec fn row_view(r: FlatpakRow) -> (Seq<char>, Seq<char>, Seq<char>, Seq<char>) {
    (r.app_id@, r.name@, r.version@, r.size_text@)
}

/// Reads one line of the list.
pub fn parse_flatpak_line(line: &Vec<char>) -> (r: Option<FlatpakRow>)
    ensures
        match r {
            Some(row) => row_of(line@) == Some(row_view(row)),
            None => row_of(line@).is_none(),
        },
{
    let parts = split_char(line, '\t');
    if parts.len() < 2 {
        return None;
    }
    proof {
        assert(pieces(parts@)[0] == parts@[0]@);
        assert(pieces(parts@)[1] == parts@[1]@);
    }
    let app_id = string_of(&trim_chars(&parts[0]));
    let name = string_of(&trim_chars(&parts[1]));
    let version = if parts.len() > 2 {
        proof {
            assert(pieces(parts@)[2] == parts@[2]@);
        }
        string_of(&trim_chars(&parts[2]))
    } else {
        String::new()
    };
    let size_text = if parts.len() > 3 {
        proof {
            assert(pieces(parts@)[3] == parts@[3]@);
        }
        string_of(&trim_chars(&parts[3]))
    } else {
        "0".to_owned()
    };
    Some(FlatpakRow { app_id, name, version, size_text })
}

/// The rows of the whole list, one per line that has at least two columns.
pub open spec fn list_rows(ls: Seq<Seq<char>>) -> Seq<(Seq<char>, Seq<char>, Seq<char>, Seq<char>)>
    decreases ls.len(),
{
    if ls.len() == 0 {
        seq![]
    } else {
        let rest = list_rows(ls.drop_last());
        match row_of(ls.last()) {
            Some(r) => rest.push(r),
            None => rest,
        }
    }
}

/// Reads the output of the list command.
pub fn parse_flatpak_list(stdout: &str) -> (r: Vec<FlatpakRow>)
    ensures
        r@.map_values(|x: FlatpakRow| row_view(x)) == list_rows(lines(stdout@)),
{
    let v = chars_of(stdout);
    let ls = lines_of(&v);
    let ghost all = pieces(ls@);
    let mut out: Vec<FlatpakRow> = Vec::new();
    let mut i: usize = 0;
    proof {
        assert(out@.map_values(|x: FlatpakRow| row_view(x)) =~= list_rows(all.take(0)));
    }
    while i < ls.len()
        invariant
            i <= ls@.len(),
            all == pieces(ls@),
            all == lines(stdout@),
            out@.map_values(|x: FlatpakRow| row_view(x)) == list_rows(all.take(i as int)),
        decreases ls@.len() - i,
    {
        proof {
            assert(all.take(i + 1).drop_last() =~= all.take(i as int));
            assert(all.take(i + 1).last() == ls@[i as int]@);
        }
        match parse_flatpak_line(&ls[i]) {
            Some(row) => {
                let ghost before = out@;
                out.push(row);
                proof {
                    assert(out@.map_values(|x: FlatpakRow| row_view(x)) =~= before.map_values(
                        |x: FlatpakRow| row_view(x),
                    ).push(row_view(row)));
                }
            },
            None => {},
        }
        i = i + 1;
    }
    proof {
        assert(all.take(all.len() as int) =~= all);
    }
    out
}

/// The package record of a row, with its size in bytes.
pub fn flatpak_package(row: FlatpakRow, installed_size: u64) -> (p: PackageInfo)
    ensures
        p.id@ == qualified_id_of(PackageSource::Flatpak, row.app_id@),
        p.name == row.app_id,
        p.display_name == row.name,
        p.version == row.version,
        p.description@ == Seq::<char>::empty(),
        p.categories@.len() == 0,
        p.icon_name.is_none(),
        p.source == PackageSource::Flatpak,
        p.installed_size == installed_size,
        p.depends@.len() == 0,
        p.required_by@.len() == 0,
        p.provides@.len() == 0,
        p.is_explicit,
        !p.is_protected,
        p.install_path.is_none(),
        p.install_date.is_none(),
{
    let id = make_qualified_id(PackageSource::Flatpak, row.app_id.as_str());
    PackageInfo {
        id,
        name: row.app_id,
        display_name: row.name,
        version: row.version,
        description: String::new(),
        categories: Vec::new(),
        icon_name: None,
        source: PackageSource::Flatpak,
        installed_size,
        depends: Vec::new(),
        required_by: Vec::new(),
        provides: Vec::new(),
        is_explicit: true,
        is_protected: false,
        install_path: None,
        install_date: None,
    }
}

/// The byte multiplier of a Flatpak size unit (decimal units), or 0 when
/// the unit is unknown.
pub open spec fn flatpak_unit(u: Seq<char>) -> u64 {
    if u == "kB"@ || u == "KB"@ {
        1000
    } else if u == "MB"@ {
        1000000
    } else if u == "GB"@ {
        1000000000
    } else {
        0
    }
}

pub fn flatpak_unit_of(u: &Vec<char>) -> (r: u64)
    ensures
        r == flatpak_unit(u@),
{
    if eq_str(u, "kB") || eq_str(u, "KB") {
        1000
    } else if eq_str(u, "MB") {
        1000000
    } else if eq_str(u, "GB") {
        1000000000
    } else {
        0
    }
}

/// Splits a Flatpak size such as `"842.3 MB"` into its number text and the
/// multiplier of its unit (0 for an unknown unit).  `None` unless the text
/// has exactly two words; such a size counts as 0 bytes.
pub fn parse_flatpak_size(s: &str) -> (r: Option<(String, u64)>)
    ensures
        match r {
            Some((n, m)) => split_ws(s@).len() == 2 && n@ == split_ws(s@)[0] && m == flatpak_unit(
                split_ws(s@)[1],
            ),
            None => split_ws(s@).len() != 2,
        },
{
    let v = chars_of(s);
    let parts = split_whitespace(&v);
    if parts.len() != 2 {
        return None;
    }
    proof {
        assert(pieces(parts@)[0] == parts@[0]@ && pieces(parts@)[1] == parts@[1]@);
    }
    Some((string_of(&parts[0]), flatpak_unit_of(&parts[1])))
}

} // verus!
