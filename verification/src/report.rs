//! The `archive` report: which archives exist, what they hold, and how the
//! summaries read.
use vstd::prelude::*;
use crate::archive::strs;
use crate::path::{join, join_path};
use crate::sort::{key_sorted, sort_by_key, with_key, SortKey};
use crate::text::{chars_eq, chars_of, copy_range, decimal, string_of, usize_to_string};

verus! {

broadcast use vstd::string::group_string_axioms;

/// One archive in the report.
#[derive(Debug, Clone, PartialEq, Eq)]
pub struct ArchiveRow {
    /// The channel directory, or `downloads`.
    pub name: String,
    /// The archive directory, relative to where the report was made.
    pub path: String,
    /// How many distinct ids the archive holds.
    pub count: usize,
}

impl SortKey for ArchiveRow {
    open spec fn key(&self) -> Seq<char> {
        self.name@
    }

    fn key_chars(&self) -> (r: Vec<char>) {
        chars_of(self.name.as_str())
    }
}

/// Channel rows by name (rows of one name in their given order), then the
/// downloads row if there is one.
pub fn order_archive_rows(channels: Vec<ArchiveRow>, downloads: Option<ArchiveRow>) -> (r: Vec<
    ArchiveRow,
>)
    ensures
        ({
            let n = channels@.len();
            &&& r@.len() == n + if downloads is Some {
                1int
            } else {
                0int
            }
            &&& r@.take(n as int).to_multiset() == channels@.to_multiset()
            &&& key_sorted(r@.take(n as int))
            &&& forall|k: Seq<char>| #[trigger] with_key(r@.take(n as int), k) == with_key(channels@, k)
            &&& downloads matches Some(d) ==> r@.last() == d
        }),
{
    let ghost n = channels@.len();
    let mut r = sort_by_key(channels);
    proof {
        vstd::seq_lib::to_multiset_len(r@);
        vstd::seq_lib::to_multiset_len(channels@);
    }
    assert(r@.len() == n);
    assert(r@.take(n as int) =~= r@);
    match downloads {
        Some(d) => {
            let ghost before = r@;
            r.push(d);
            assert(r@.take(n as int) =~= before);
        },
        None => {},
    }
    r
}

/// `path` relative to `root`: what follows `root` and a separating `/`
/// (nothing when they are equal); `path` itself when it is not under `root`.
pub open spec fn strip_root(root: Seq<char>, path: Seq<char>) -> Seq<char> {
    if path == root {
        Seq::empty()
    } else if root.len() > 0 && path.len() > root.len() && path.take(root.len() as int) == root {
        if root.last() == '/' {
            path.skip(root.len() as int)
        } else if path[root.len() as int] == '/' {
            path.skip(root.len() as int + 1)
        } else {
            path
        }
    } else {
        path
    }
}

/// `path` relative to `root`, for display.
pub fn relative_path(root: &str, path: &str) -> (r: String)
    ensures
        r@ == strip_root(root@, path@),
{
    let rv = chars_of(root);
    let pv = chars_of(path);
    let m = rv.len();
    let n = pv.len();
    if chars_eq(&rv, &pv) {
        return String::new();
    }
    if m > 0 && n > m {
        let head = copy_range(&pv, 0, m);
        assert(head@ =~= pv@.take(m as int));
        if chars_eq(&head, &rv) {
            if rv[m - 1] == '/' {
                let rest = copy_range(&pv, m, n);
                assert(rest@ =~= pv@.skip(m as int));
                return string_of(&rest);
            } else if pv[m] == '/' {
                let rest = copy_range(&pv, m + 1, n);
                assert(rest@ =~= pv@.skip(m + 1));
                return string_of(&rest);
            }
        }
    }
    path.to_owned()
}

/// Law: a relative path joined onto a root reads back relative to that root.
pub proof fn lemma_relative_path_of_join(root: Seq<char>, p: Seq<char>)
    requires
        root.len() > 0,
        p.len() > 0,
        p[0] != '/',
    ensures
        strip_root(root, join(root, p)) == p,
{
    let j = join(root, p);
    if root.last() == '/' {
        assert(j =~= root + p);
        assert(j.take(root.len() as int) =~= root);
        assert(j.skip(root.len() as int) =~= p);
    } else {
        assert(j =~= root + seq!['/'] + p);
        assert(j.take(root.len() as int) =~= root);
        assert(j[root.len() as int] == '/');
        assert(j.skip(root.len() as int + 1) =~= p);
    }
    assert(j.len() > root.len());
}

/// Where the archive of a directory entry called `name` lives: `downloads`
/// keeps it in `downloads/.archive`, a channel in `<name>/videos/.archive`.
pub open spec fn entry_archive_dir(root: Seq<char>, name: Seq<char>) -> Seq<char> {
    if name == "downloads"@ {
        join(join(root, "downloads"@), ".archive"@)
    } else {
        join(join(join(root, name), "videos"@), ".archive"@)
    }
}

/// The archive directory of the entry `name` of `root`.
pub fn archive_dir_of_entry(root: &str, name: &str) -> (r: String)
    ensures
        r@ == entry_archive_dir(root@, name@),
{
    let v = chars_of(name);
    let d = chars_of("downloads");
    if chars_eq(&v, &d) {
        let base = join_path(root, "downloads");
        join_path(base.as_str(), ".archive")
    } else {
        let base = join_path(root, name);
        let videos = join_path(base.as_str(), "videos");
        join_path(videos.as_str(), ".archive")
    }
}

/// What showing an archive needs: a directory that must exist, the error
/// reported when it does not, and the archive directory to read.
pub struct ShowTarget {
    pub required_dir: String,
    pub missing_error: String,
    pub archive_dir: String,
}

/// Where the archive called `name` is read from, under `root`.
pub fn show_target(root: &str, name: &str) -> (r: ShowTarget)
    ensures
        name@ == "downloads"@ ==> r.required_dir@ == join(root@, "downloads"@)
            && r.missing_error@ == "downloads directory not found"@ && r.archive_dir@ == join(
            join(root@, "downloads"@),
            ".archive"@,
        ),
        name@ != "downloads"@ ==> r.required_dir@ == join(root@, name@) && r.missing_error@
            == "channel directory '"@ + name@ + "' not found"@ && r.archive_dir@ == join(
            join(join(root@, name@), "videos"@),
            ".archive"@,
        ),
{
    let v = chars_of(name);
    let d = chars_of("downloads");
    if chars_eq(&v, &d) {
        let dir = join_path(root, "downloads");
        let archive_dir = join_path(dir.as_str(), ".archive");
        ShowTarget {
            required_dir: dir,
            missing_error: "downloads directory not found".to_owned(),
            archive_dir,
        }
    } else {
        let dir = join_path(root, name);
        let videos = join_path(dir.as_str(), "videos");
        let archive_dir = join_path(videos.as_str(), ".archive");
        let mut msg = "channel directory '".to_owned();
        msg.append(name);
        msg.append("' not found");
        ShowTarget { required_dir: dir, missing_error: msg, archive_dir }
    }
}

/// `id` for one, `ids` otherwise.
pub open spec fn id_word(count: nat) -> Seq<char> {
    if count == 1 {
        "id"@
    } else {
        "ids"@
    }
}

/// The noun for `count` archive ids.
pub fn id_noun(count: usize) -> (r: &'static str)
    ensures
        r@ == id_word(count as nat),
{
    if count == 1 {
        "id"
    } else {
        "ids"
    }
}

/// One row of the list report.
pub open spec fn row_line(row: ArchiveRow) -> Seq<char> {
    "  "@ + row.name@ + ": "@ + row.path@ + " ("@ + decimal(row.count as nat) + " "@ + id_word(
        row.count as nat,
    ) + ")\n"@
}

/// The rows' lines, in order.
pub open spec fn row_lines(rows: Seq<ArchiveRow>) -> Seq<char>
    decreases rows.len(),
{
    if rows.len() == 0 {
        Seq::empty()
    } else {
        row_lines(rows.drop_last()) + row_line(rows.last())
    }
}

/// The list report: a count line, then one line per archive.
pub open spec fn list_report(rows: Seq<ArchiveRow>) -> Seq<char> {
    "✓ "@ + decimal(rows.len()) + " "@ + (if rows.len() == 1 {
        "archive"@
    } else {
        "archives"@
    }) + "\n"@ + row_lines(rows)
}

/// Appends the list report of `rows` to `out`.
pub fn render_list(out: &mut String, rows: &[ArchiveRow])
    ensures
        final(out)@ == old(out)@ + list_report(rows@),
{
    let ghost start = out@;
    out.append("✓ ");
    let n = usize_to_string(rows.len());
    out.append(n.as_str());
    out.append(" ");
    if rows.len() == 1 {
        out.append("archive");
    } else {
        out.append("archives");
    }
    out.append("\n");
    let ghost head = out@;
    assert(head =~= start + ("✓ "@ + decimal(rows@.len()) + " "@ + (if rows@.len() == 1 {
        "archive"@
    } else {
        "archives"@
    }) + "\n"@));
    for i in 0..rows.len()
        invariant
            out@ == head + row_lines(rows@.take(i as int)),
    {
        let row = &rows[i];
        out.append("  ");
        out.append(row.name.as_str());
        out.append(": ");
        out.append(row.path.as_str());
        out.append(" (");
        let c = usize_to_string(row.count);
        out.append(c.as_str());
        out.append(" ");
        out.append(id_noun(row.count));
        out.append(")\n");
        assert(rows@.take(i + 1).drop_last() =~= rows@.take(i as int));
        assert(out@ =~= head + row_lines(rows@.take(i + 1)));
    }
    assert(rows@.take(rows.len() as int) =~= rows@);
    assert(out@ =~= start + list_report(rows@));
}

/// The archive's lines, each indented on a line of its own.
pub open spec fn shown_lines(lines: Seq<Seq<char>>) -> Seq<char>
    decreases lines.len(),
{
    if lines.len() == 0 {
        Seq::empty()
    } else {
        shown_lines(lines.drop_last()) + "  "@ + lines.last() + "\n"@
    }
}

/// The report of one archive: a count line, then its lines.
pub open spec fn show_report(name: Seq<char>, lines: Seq<Seq<char>>) -> Seq<char> {
    "✓ "@ + decimal(lines.len()) + " "@ + id_word(lines.len()) + " in "@ + name + "\n"@
        + shown_lines(lines)
}

/// Appends the report of the archive `name` holding `lines` to `out`.
pub fn render_show(out: &mut String, name: &str, lines: &[String])
    ensures
        final(out)@ == old(out)@ + show_report(name@, strs(lines@)),
{
    let ghost start = out@;
    let ghost ls = strs(lines@);
    out.append("✓ ");
    let n = usize_to_string(lines.len());
    out.append(n.as_str());
    out.append(" ");
    out.append(id_noun(lines.len()));
    out.append(" in ");
    out.append(name);
    out.append("\n");
    let ghost head = out@;
    for i in 0..lines.len()
        invariant
            ls == strs(lines@),
            out@ == head + shown_lines(ls.take(i as int)),
    {
        out.append("  ");
        out.append(lines[i].as_str());
        out.append("\n");
        assert(ls[i as int] == lines@[i as int]@);
        assert(ls.take(i + 1).drop_last() =~= ls.take(i as int));
        assert(out@ =~= head + shown_lines(ls.take(i + 1)));
    }
    assert(ls.take(lines.len() as int) =~= ls);
    assert(out@ =~= start + show_report(name@, ls));
}

} // verus!
