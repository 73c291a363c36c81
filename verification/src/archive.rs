//! Download archives: where they live, how their lines are read and merged,
//! and when the canonical channel archive has to be rewritten.
use vstd::prelude::*;
use crate::path::{
    extension_of, file_name, file_name_of, file_name_range, join, join_path, name_extension,
    name_stem, stem_of, with_extension,
};
use crate::sort::{lex_le, sort_by_key, with_key, SortKey};
use crate::text::{
    chars_eq, chars_of, copy_range, is_whitespace, is_ws, lines, lines_of, string_of, trim,
    trim_chars, trim_end, views,
};

verus! {

broadcast use vstd::string::group_string_axioms;

/// The text of each string.
pub open spec fn strs(v: Seq<String>) -> Seq<Seq<char>> {
    v.map_values(|s: String| s@)
}

/// `<output_dir>/.archive/downloads.archive`, the archive of single-URL downloads.
pub fn url_archive_path(output_dir: &str) -> (r: String)
    ensures
        r@ == join(join(output_dir@, ".archive"@), "downloads.archive"@),
{
    let dir = join_path(output_dir, ".archive");
    join_path(dir.as_str(), "downloads.archive")
}

/// `<output_dir>/.archive/videos.archive`, the archive every list download of a channel shares.
pub fn channel_archive_path(output_dir: &str) -> (r: String)
    ensures
        r@ == join(join(output_dir@, ".archive"@), "videos.archive"@),
{
    let dir = join_path(output_dir, ".archive");
    join_path(dir.as_str(), "videos.archive")
}

/// The stem a list file's archive is named after; `archive` when the path has no file name.
pub open spec fn list_stem(list_file: Seq<char>) -> Seq<char> {
    match file_name(list_file) {
        Some(n) => name_stem(n),
        None => "archive"@,
    }
}

/// The per-list archive `<output_dir>/.archive/<stem>.archive`, where a
/// multi-extension name such as `foo.bar.txt` yields `foo.archive`.
pub fn list_archive_path(output_dir: &str, list_file: &str) -> (r: String)
    ensures
        r@ == with_extension(join(join(output_dir@, ".archive"@), list_stem(list_file@)), "archive"@),
{
    let lf = chars_of(list_file);
    let stem: String = match file_name_of(&lf) {
        Some(n) => string_of(&stem_of(&n)),
        None => "archive".to_owned(),
    };
    let dir = join_path(output_dir, ".archive");
    let joined = join_path(dir.as_str(), stem.as_str());
    let p = chars_of(joined.as_str());
    match file_name_range(&p) {
        Some((a, b)) => {
            let name = copy_range(&p, a, b);
            let s = stem_of(&name);
            proof {
                crate::path::lemma_name_stem_len(name@);
            }
            let mut out = copy_range(&p, 0, a + s.len());
            assert(out@ =~= p@.take(a + s@.len()));
            let mut r = string_of(&out);
            r.append(".archive");
            proof {
                reveal_strlit("archive");
                reveal_strlit(".archive");
            }
            assert(r@ =~= with_extension(joined@, "archive"@));
            r
        },
        None => joined,
    }
}

/// The suffix of `t` after its last whitespace.
pub open spec fn trailing_field(t: Seq<char>) -> Seq<char>
    decreases t.len(),
{
    if t.len() == 0 || is_ws(t.last()) {
        Seq::empty()
    } else {
        trailing_field(t.drop_last()).push(t.last())
    }
}

/// The video id of an archive line (`youtube <id>`): its last
/// whitespace-separated field, or the line itself when it has none.
pub open spec fn line_id(line: Seq<char>) -> Seq<char> {
    let t = trim_end(line);
    if t.len() == 0 {
        line
    } else {
        trailing_field(t)
    }
}

proof fn lemma_trailing_field(t: Seq<char>)
    ensures
        trailing_field(t).len() <= t.len(),
        trailing_field(t) =~= t.subrange(t.len() - trailing_field(t).len(), t.len() as int),
    decreases t.len(),
{
    if t.len() > 0 && !is_ws(t.last()) {
        lemma_trailing_field(t.drop_last());
    }
}

/// The video id of an archive line.
pub fn archive_line_id(line: &str) -> (r: &str)
    ensures
        r@ == line_id(line@),
{
    let v = chars_of(line);
    let mut end = v.len();
    assert(v@.take(end as int) =~= v@);
    while end > 0 && is_whitespace(v[end - 1])
        invariant
            end <= v.len(),
            trim_end(v@) == trim_end(v@.take(end as int)),
        decreases end,
    {
        assert(v@.take(end as int).drop_last() =~= v@.take(end - 1));
        end = end - 1;
    }
    if end == 0 {
        assert(trim_end(v@.take(0)) =~= Seq::<char>::empty());
        return line;
    }
    let ghost t = v@.take(end as int);
    assert(trim_end(t) == t);
    let mut k = end;
    while k > 0 && !is_whitespace(v[k - 1])
        invariant
            k <= end <= v.len(),
            trailing_field(t) =~= trailing_field(v@.take(k as int)) + v@.subrange(
                k as int,
                end as int,
            ),
        decreases k,
    {
        assert(v@.take(k as int).drop_last() =~= v@.take(k - 1));
        assert(v@.subrange(k - 1, end as int) =~= seq![v@[k - 1]] + v@.subrange(
            k as int,
            end as int,
        ));
        k = k - 1;
    }
    assert(trailing_field(v@.take(k as int)) =~= Seq::<char>::empty());
    line.substring_char(k, end)
}

/// How many of `ids` occur among `known`.
pub open spec fn count_present(ids: Seq<Seq<char>>, known: Seq<Seq<char>>) -> nat
    decreases ids.len(),
{
    if ids.len() == 0 {
        0
    } else {
        count_present(ids.drop_last(), known) + if known.contains(ids.last()) {
            1nat
        } else {
            0nat
        }
    }
}

/// The ids of archive lines.
pub open spec fn line_ids(lines: Seq<Seq<char>>) -> Seq<Seq<char>> {
    lines.map_values(|l: Seq<char>| line_id(l))
}

/// The text of each string slice.
pub open spec fn str_views(v: Seq<&str>) -> Seq<Seq<char>> {
    v.map_values(|s: &str| s@)
}

proof fn lemma_count_present_bound(ids: Seq<Seq<char>>, known: Seq<Seq<char>>)
    ensures
        count_present(ids, known) <= ids.len(),
    decreases ids.len(),
{
    if ids.len() > 0 {
        lemma_count_present_bound(ids.drop_last(), known);
    }
}

/// Law: the count of archived ids is the number of ids, wherever they
/// stand in the list, that occur among the known ids: the length of the
/// list filtered to archived ids.
pub proof fn lemma_count_present_is_filtered_len(ids: Seq<Seq<char>>, known: Seq<Seq<char>>)
    ensures
        count_present(ids, known) == ids.filter(|x: Seq<char>| known.contains(x)).len(),
    decreases ids.len(),
{
    reveal(Seq::filter);
    if ids.len() > 0 {
        lemma_count_present_is_filtered_len(ids.drop_last(), known);
    }
}

/// Law: counting archived ids adds up over the parts of a list, so the
/// ids before an id never change whether it counts.
pub proof fn lemma_count_present_concat(a: Seq<Seq<char>>, b: Seq<Seq<char>>, known: Seq<Seq<char>>)
    ensures
        count_present(a + b, known) == count_present(a, known) + count_present(b, known),
    decreases b.len(),
{
    if b.len() == 0 {
        assert(a + b =~= a);
    } else {
        lemma_count_present_concat(a, b.drop_last(), known);
        assert((a + b).drop_last() =~= a + b.drop_last());
        assert((a + b).last() == b.last());
    }
}

/// Law: the count does not depend on the order of the ids: a list and any
/// reordering of it count alike.
pub proof fn lemma_count_present_reorder(a: Seq<Seq<char>>, b: Seq<Seq<char>>, known: Seq<Seq<char>>)
    requires
        a.to_multiset() == b.to_multiset(),
    ensures
        count_present(a, known) == count_present(b, known),
    decreases a.len(),
{
    if a.len() > 0 {
        let x = a.last();
        let a0 = a.drop_last();
        assert(a0.push(x) =~= a);
        a0.to_multiset_ensures();
        b.to_multiset_ensures();
        assert(a.to_multiset().count(x) > 0);
        assert(b.contains(x));
        let j = choose|j: int| 0 <= j < b.len() && b[j] == x;
        let b2 = b.remove(j);
        assert(b =~= (b.take(j) + seq![x]) + b.skip(j + 1));
        assert(b2 =~= b.take(j) + b.skip(j + 1));
        lemma_count_present_concat(b.take(j) + seq![x], b.skip(j + 1), known);
        lemma_count_present_concat(b.take(j), seq![x], known);
        lemma_count_present_concat(b.take(j), b.skip(j + 1), known);
        assert(seq![x].drop_last() =~= Seq::<Seq<char>>::empty());
        assert(seq![x].last() == x);
        assert(count_present(Seq::<Seq<char>>::empty(), known) == 0);
        assert(count_present(seq![x], known) == count_present(seq![x].drop_last(), known) + if known.contains(x) {
            1nat
        } else {
            0nat
        });
        let one = if known.contains(x) { 1nat } else { 0nat };
        assert(count_present(seq![x], known) == one);
        assert(count_present(a, known) == count_present(a0, known) + one);
        assert(count_present(b, known) == count_present(b2, known) + one);
        assert(a0.to_multiset() =~= b2.to_multiset());
        lemma_count_present_reorder(a0, b2, known);
    } else {
        a.to_multiset_ensures();
        b.to_multiset_ensures();
        assert(b.len() == 0);
    }
}

/// How many of `list_ids` already appear, as the id of some line, in `archive_lines`.
pub fn count_ids_in_archive(list_ids: &[&str], archive_lines: &[String]) -> (r: usize)
    ensures
        r == count_present(str_views(list_ids@), line_ids(strs(archive_lines@))),
        r <= list_ids.len(),
{
    let mut known: Vec<String> = Vec::new();
    for j in 0..archive_lines.len()
        invariant
            strs(known@) =~= line_ids(strs(archive_lines@)).take(j as int),
    {
        let id = archive_line_id(archive_lines[j].as_str());
        assert(strs(archive_lines@)[j as int] == archive_lines@[j as int]@);
        let ghost old_known = known@;
        known.push(id.to_owned());
        assert(strs(known@) =~= strs(old_known).push(id@));
        assert(strs(known@) =~= line_ids(strs(archive_lines@)).take(j + 1));
    }
    assert(line_ids(strs(archive_lines@)).take(archive_lines.len() as int) =~= line_ids(
        strs(archive_lines@),
    ));
    let ghost ids = str_views(list_ids@);
    let mut count: usize = 0;
    for i in 0..list_ids.len()
        invariant
            strs(known@) == line_ids(strs(archive_lines@)),
            ids == str_views(list_ids@),
            count == count_present(ids.take(i as int), strs(known@)),
            count <= i,
    {
        let target = list_ids[i].to_owned();
        let present = contains_string(&known, &target);
        assert(ids.take(i + 1).drop_last() =~= ids.take(i as int));
        if present {
            count = count + 1;
        }
    }
    assert(ids.take(list_ids.len() as int) =~= ids);
    count
}

/// Whether `s` is one of `v`.
pub fn contains_string(v: &Vec<String>, s: &String) -> (r: bool)
    ensures
        r == strs(v@).contains(s@),
{
    for i in 0..v.len()
        invariant
            forall|j: int| 0 <= j < i ==> v@[j]@ != s@,
    {
        if v[i] == *s {
            assert(strs(v@)[i as int] == s@);
            return true;
        }
    }
    assert forall|j: int| 0 <= j < strs(v@).len() implies strs(v@)[j] != s@ by {
        assert(strs(v@)[j] == v@[j]@);
    }
    false
}

/// The non-blank lines of `ls`, trimmed.
pub open spec fn nonblank_trimmed(ls: Seq<Seq<char>>) -> Seq<Seq<char>>
    decreases ls.len(),
{
    if ls.len() == 0 {
        Seq::empty()
    } else {
        let r = nonblank_trimmed(ls.drop_last());
        let t = trim(ls.last());
        if t.len() > 0 {
            r.push(t)
        } else {
            r
        }
    }
}

/// The entries of an archive file: its non-blank lines, trimmed.
pub open spec fn archive_entries(body: Seq<char>) -> Seq<Seq<char>> {
    nonblank_trimmed(lines(body))
}

/// The entries of several archive files, in order.
pub open spec fn all_entries(bodies: Seq<Seq<char>>) -> Seq<Seq<char>>
    decreases bodies.len(),
{
    if bodies.len() == 0 {
        Seq::empty()
    } else {
        all_entries(bodies.drop_last()) + archive_entries(bodies.last())
    }
}

/// `s` with every element after its first occurrence removed.
pub open spec fn dedup(s: Seq<Seq<char>>) -> Seq<Seq<char>>
    decreases s.len(),
{
    if s.len() == 0 {
        Seq::empty()
    } else {
        let d = dedup(s.drop_last());
        if d.contains(s.last()) {
            d
        } else {
            d.push(s.last())
        }
    }
}

/// The union of archive files read in order: every entry once, at its first occurrence.
pub open spec fn archive_union(bodies: Seq<Seq<char>>) -> Seq<Seq<char>> {
    dedup(all_entries(bodies))
}

/// The union of the archive files `bodies` (in reading order): their
/// non-blank lines, trimmed, each kept at its first occurrence.
pub fn union_archive_lines(bodies: &[String]) -> (r: Vec<String>)
    ensures
        strs(r@) == archive_union(strs(bodies@)),
{
    let ghost bs = strs(bodies@);
    let mut out: Vec<String> = Vec::new();
    for b in 0..bodies.len()
        invariant
            bs == strs(bodies@),
            strs(out@) == dedup(all_entries(bs.take(b as int))),
    {
        let chars = chars_of(bodies[b].as_str());
        let ls = lines_of(&chars);
        let ghost body_lines = lines(bs[b as int]);
        assert(bs[b as int] == bodies@[b as int]@);
        for k in 0..ls.len()
            invariant
                bs == strs(bodies@),
                views(ls@) == body_lines,
                body_lines == lines(bs[b as int]),
                strs(out@) == dedup(all_entries(bs.take(b as int)) + nonblank_trimmed(
                    body_lines.take(k as int),
                )),
        {
            assert(views(ls@)[k as int] == ls@[k as int]@);
            let t = trim_chars(&ls[k]);
            assert(body_lines.take(k + 1).drop_last() =~= body_lines.take(k as int));
            let ghost acc = all_entries(bs.take(b as int)) + nonblank_trimmed(
                body_lines.take(k as int),
            );
            if t.len() > 0 {
                let s = string_of(&t);
                assert(acc.push(t@) =~= all_entries(bs.take(b as int)) + nonblank_trimmed(
                    body_lines.take(k + 1),
                ));
                assert(acc.push(t@).drop_last() =~= acc);
                if !contains_string(&out, &s) {
                    let ghost old_out = out@;
                    out.push(s);
                    assert(strs(out@) =~= strs(old_out).push(t@));
                }
            } else {
                assert(acc =~= all_entries(bs.take(b as int)) + nonblank_trimmed(
                    body_lines.take(k + 1),
                ));
            }
        }
        assert(body_lines.take(ls.len() as int) =~= body_lines);
        assert(bs.take(b + 1).drop_last() =~= bs.take(b as int));
    }
    assert(bs.take(bodies.len() as int) =~= bs);
    out
}


/// Whether the archive text `raw` lacks one of `union`'s lines or a final line feed.
pub open spec fn needs_write(raw: Seq<char>, union: Seq<Seq<char>>) -> bool {
    (exists|i: int| 0 <= i < union.len() && !archive_entries(raw).contains(#[trigger] union[i]))
        || !(raw.len() > 0 && raw.last() == '\n')
}

/// Whether `raw`, the current canonical archive, must be rewritten to hold `union`.
pub fn archive_needs_write(raw: &str, union: &[String]) -> (r: bool)
    ensures
        r == needs_write(raw@, strs(union@)),
{
    let chars = chars_of(raw);
    let ls = lines_of(&chars);
    let ghost body_lines = lines(raw@);
    let mut seen: Vec<String> = Vec::new();
    for k in 0..ls.len()
        invariant
            views(ls@) == body_lines,
            body_lines == lines(raw@),
            strs(seen@) == nonblank_trimmed(body_lines.take(k as int)),
    {
        assert(views(ls@)[k as int] == ls@[k as int]@);
        let t = trim_chars(&ls[k]);
        assert(body_lines.take(k + 1).drop_last() =~= body_lines.take(k as int));
        if t.len() > 0 {
            let ghost old_seen = seen@;
            seen.push(string_of(&t));
            assert(strs(seen@) =~= strs(old_seen).push(t@));
        }
    }
    assert(body_lines.take(ls.len() as int) =~= body_lines);
    let ghost u = strs(union@);
    for i in 0..union.len()
        invariant
            strs(seen@) == archive_entries(raw@),
            u == strs(union@),
            forall|j: int| 0 <= j < i ==> archive_entries(raw@).contains(#[trigger] u[j]),
    {
        assert(u[i as int] == union@[i as int]@);
        if !contains_string(&seen, &union[i]) {
            return true;
        }
    }
    let n = chars.len();
    !(n > 0 && chars[n - 1] == '\n')
}

/// The lines joined by line feeds.
pub open spec fn join_lines(ls: Seq<Seq<char>>) -> Seq<char>
    decreases ls.len(),
{
    if ls.len() == 0 {
        Seq::empty()
    } else if ls.len() == 1 {
        ls[0]
    } else {
        join_lines(ls.drop_last()) + seq!['\n'] + ls.last()
    }
}

/// The canonical archive text: the lines joined by line feeds, then a final line feed.
pub open spec fn canonical_body(ls: Seq<Seq<char>>) -> Seq<char> {
    join_lines(ls) + seq!['\n']
}

/// The canonical archive text of `lines`.
pub fn canonical_archive_body(lines: &[String]) -> (r: String)
    ensures
        r@ == canonical_body(strs(lines@)),
{
    let ghost ls = strs(lines@);
    let mut body = String::new();
    for i in 0..lines.len()
        invariant
            ls == strs(lines@),
            body@ == join_lines(ls.take(i as int)),
    {
        assert(ls[i as int] == lines@[i as int]@);
        assert(ls.take(i + 1).drop_last() =~= ls.take(i as int));
        if i > 0 {
            body.append("\n");
            proof {
                reveal_strlit("\n");
            }
        } else {
            assert(ls.take(1) =~= seq![ls[0]]);
        }
        body.append(lines[i].as_str());
        assert(body@ =~= join_lines(ls.take(i + 1)));
    }
    assert(ls.take(lines.len() as int) =~= ls);
    body.append("\n");
    proof {
        reveal_strlit("\n");
    }
    assert(body@ =~= canonical_body(ls));
    body
}

/// What to write to the canonical archive, given the union of the archive
/// directory and the archive's current text (if the file exists): nothing
/// when the union is empty or the archive already holds every line and ends
/// with a line feed, else the canonical text of the union.
pub fn materialize_write(union: &[String], existing: Option<&str>) -> (r: Option<String>)
    ensures
        union.len() == 0 ==> r is None,
        union.len() > 0 ==> match existing {
            None => r matches Some(b) && b@ == canonical_body(strs(union@)),
            Some(raw) => if needs_write(raw@, strs(union@)) {
                r matches Some(b) && b@ == canonical_body(strs(union@))
            } else {
                r is None
            },
        },
{
    if union.len() == 0 {
        return None;
    }
    match existing {
        None => Some(canonical_archive_body(union)),
        Some(raw) => if archive_needs_write(raw, union) {
            Some(canonical_archive_body(union))
        } else {
            None
        },
    }
}

/// The order archive files are read in: `videos.archive` first, the rest by name.
pub open spec fn archive_sort_key(name: Seq<char>) -> Seq<char> {
    if name == "videos.archive"@ {
        Seq::empty()
    } else {
        name
    }
}

/// A file name with the `.archive` extension.
pub open spec fn is_archive_name(name: Seq<char>) -> bool {
    name_extension(name) == Some("archive"@)
}

/// An archive file name, ordered for reading.
pub struct ArchiveFileName(pub String);

impl SortKey for ArchiveFileName {
    open spec fn key(&self) -> Seq<char> {
        archive_sort_key(self.0@)
    }

    fn key_chars(&self) -> (r: Vec<char>) {
        let v = chars_of(self.0.as_str());
        let canon = chars_of("videos.archive");
        if chars_eq(&v, &canon) {
            Vec::new()
        } else {
            v
        }
    }
}

/// The names in `names` that carry the `.archive` extension, in order.
pub open spec fn archive_names(names: Seq<String>) -> Seq<String>
    decreases names.len(),
{
    if names.len() == 0 {
        Seq::empty()
    } else {
        let r = archive_names(names.drop_last());
        if is_archive_name(names.last()@) {
            r.push(names.last())
        } else {
            r
        }
    }
}

/// The names of the wrapped file names.
pub open spec fn file_names(v: Seq<ArchiveFileName>) -> Seq<String> {
    v.map_values(|f: ArchiveFileName| f.0)
}

/// The names in `names` whose reading-order key is `k`, in their order.
pub open spec fn names_with_key(names: Seq<String>, k: Seq<char>) -> Seq<String> {
    names.filter(|s: String| archive_sort_key(s@) == k)
}

/// Unwrapping keeps the names of one key in order.
proof fn lemma_file_names_with_key(v: Seq<ArchiveFileName>, k: Seq<char>)
    ensures
        file_names(with_key(v, k)) == names_with_key(file_names(v), k),
    decreases v.len(),
{
    reveal(Seq::filter);
    if v.len() > 0 {
        lemma_file_names_with_key(v.drop_last(), k);
        assert(file_names(v).drop_last() =~= file_names(v.drop_last()));
        assert(file_names(v).last() == v.last().0);
        let w = with_key(v.drop_last(), k);
        assert(file_names(w.push(v.last())) =~= file_names(w).push(v.last().0));
    } else {
        assert(file_names(v) =~= Seq::<String>::empty());
        assert(file_names(with_key(v, k)) =~= Seq::<String>::empty());
    }
}

/// The archive files of a directory, given the names of its regular files,
/// in the order they are read: `videos.archive` first, then by name (names
/// that order alike keep their given order).
pub fn archive_files_in_read_order(names: Vec<String>) -> (r: Vec<String>)
    ensures
        r@.to_multiset() == archive_names(names@).to_multiset(),
        forall|i: int, j: int|
            0 <= i < j < r.len() ==> lex_le(
                archive_sort_key(#[trigger] r@[i]@),
                archive_sort_key(#[trigger] r@[j]@),
            ),
        forall|k: Seq<char>| #[trigger] names_with_key(r@, k) == names_with_key(
            archive_names(names@),
            k,
        ),
{
    let ghost all = names@;
    let mut kept: Vec<ArchiveFileName> = Vec::new();
    let ext = chars_of("archive");
    let n = names.len();
    let mut i: usize = 0;
    while i < n
        invariant
            names@ == all,
            n == all.len(),
            i <= n,
            file_names(kept@) =~= archive_names(all.take(i as int)),
            ext@ == "archive"@,
        decreases n - i,
    {
        let name = names[i].clone();
        let v = chars_of(name.as_str());
        let keep = match extension_of(&v) {
            Some(e) => chars_eq(&e, &ext),
            None => false,
        };
        assert(all.take(i + 1).drop_last() =~= all.take(i as int));
        assert(all.take(i + 1).last() == all[i as int]);
        if keep {
            let ghost old_kept = kept@;
            kept.push(ArchiveFileName(name));
            assert(file_names(kept@) =~= file_names(old_kept).push(all[i as int]));
        }
        i = i + 1;
    }
    assert(all.take(n as int) =~= all);
    let ghost kept_view = kept@;
    let sorted = sort_by_key(kept);
    let ghost sk = sorted@;
    let mut out: Vec<String> = Vec::new();
    let m = sorted.len();
    // Unwrap the names, preserving order.
    let mut j: usize = 0;
    while j < m
        invariant
            sorted@ == sk,
            m == sk.len(),
            j <= m,
            out@ =~= file_names(sk.take(j as int)),
        decreases m - j,
    {
        let s = sorted[j].0.clone();
        assert(s == sk[j as int].0);
        out.push(s);
        assert(file_names(sk.take(j + 1)) =~= file_names(sk.take(j as int)).push(sk[j as int].0));
        j = j + 1;
    }
    assert(sk.take(m as int) =~= sk);
    assert(out@ =~= file_names(sk));
    proof {
        let unwrap = |f: ArchiveFileName| f.0;
        crate::sort::lemma_map_values_multiset(sk, kept_view, unwrap);
        assert(file_names(sk) =~= sk.map_values(unwrap));
        assert(file_names(kept_view) =~= kept_view.map_values(unwrap));
        assert(out@.to_multiset() == file_names(kept_view).to_multiset());
        assert(file_names(kept_view) == archive_names(all));
        assert forall|k: Seq<char>| #[trigger] names_with_key(out@, k) == names_with_key(
            archive_names(all),
            k,
        ) by {
            lemma_file_names_with_key(sk, k);
            lemma_file_names_with_key(kept_view, k);
        }
        assert forall|a: int, b: int| 0 <= a < b < out.len() implies lex_le(
            archive_sort_key(#[trigger] out@[a]@),
            archive_sort_key(#[trigger] out@[b]@),
        ) by {
            assert(out@[a] == sk[a].0 && out@[b] == sk[b].0);
            assert(lex_le(sk[a].key(), sk[b].key()));
        }
    }
    out
}


/// An archive entry as reading produces it: not empty, trimmed, one line.
pub open spec fn well_formed_entry(e: Seq<char>) -> bool {
    e.len() > 0 && trim(e) == e && crate::text::no_lf(e)
}

/// Every element of `s` is a well-formed entry.
pub open spec fn all_well_formed(s: Seq<Seq<char>>) -> bool {
    forall|i: int| 0 <= i < s.len() ==> well_formed_entry(#[trigger] s[i])
}

/// No element of `s` occurs twice.
pub open spec fn no_duplicates(s: Seq<Seq<char>>) -> bool {
    forall|i: int, j: int| 0 <= i < j < s.len() ==> s[i] != s[j]
}

/// `dedup` keeps exactly the elements of its input, each once.
pub proof fn lemma_dedup(s: Seq<Seq<char>>)
    ensures
        no_duplicates(dedup(s)),
        forall|x: Seq<char>| dedup(s).contains(x) <==> s.contains(x),
    decreases s.len(),
{
    if s.len() > 0 {
        lemma_dedup(s.drop_last());
        let d = dedup(s.drop_last());
        assert forall|x: Seq<char>| dedup(s).contains(x) <==> s.contains(x) by {
            if s.contains(x) && x != s.last() {
                let i = choose|i: int| 0 <= i < s.len() && s[i] == x;
                assert(s.drop_last()[i] == x);
            }
            if s.drop_last().contains(x) {
                let i = choose|i: int| 0 <= i < s.drop_last().len() && s.drop_last()[i] == x;
                assert(s[i] == x);
            }
            if !d.contains(s.last()) && dedup(s).contains(x) {
                let i = choose|i: int| 0 <= i < dedup(s).len() && dedup(s)[i] == x;
                if i < d.len() {
                    assert(d[i] == x);
                }
            }
            if !d.contains(s.last()) && d.contains(x) {
                let i = choose|i: int| 0 <= i < d.len() && d[i] == x;
                assert(dedup(s)[i] == x);
            }
            if !d.contains(s.last()) && x == s.last() {
                assert(dedup(s)[d.len() as int] == x);
            }
        }
        if !d.contains(s.last()) {
            assert forall|i: int, j: int| 0 <= i < j < dedup(s).len() implies dedup(s)[i] != dedup(
                s,
            )[j] by {
                if j == d.len() {
                    assert(dedup(s)[i] == d[i]);
                }
            }
        }
    }
}

/// Appending to the input only appends to `dedup`'s output.
pub proof fn lemma_dedup_prefix(a: Seq<Seq<char>>, b: Seq<Seq<char>>)
    ensures
        dedup(a).len() <= dedup(a + b).len(),
        dedup(a + b).take(dedup(a).len() as int) == dedup(a),
    decreases b.len(),
{
    if b.len() == 0 {
        assert(a + b =~= a);
        assert(dedup(a).take(dedup(a).len() as int) =~= dedup(a));
    } else {
        lemma_dedup_prefix(a, b.drop_last());
        assert((a + b).drop_last() =~= a + b.drop_last());
        let d = dedup(a + b.drop_last());
        if !d.contains((a + b).last()) {
            assert(d.push((a + b).last()).take(dedup(a).len() as int) =~= d.take(
                dedup(a).len() as int,
            ));
        }
    }
}

/// Deduplicating a duplicate-free sequence followed by some of its own elements gives it back.
pub proof fn lemma_dedup_absorbs(u: Seq<Seq<char>>, rest: Seq<Seq<char>>)
    requires
        no_duplicates(u),
        forall|i: int| 0 <= i < rest.len() ==> u.contains(#[trigger] rest[i]),
    ensures
        dedup(u + rest) == u,
    decreases rest.len(),
{
    if rest.len() == 0 {
        assert(u + rest =~= u);
        lemma_dedup_of_distinct(u);
    } else {
        lemma_dedup_absorbs(u, rest.drop_last());
        assert((u + rest).drop_last() =~= u + rest.drop_last());
        assert(u.contains(rest.last()));
    }
}

/// A duplicate-free sequence is its own `dedup`.
pub proof fn lemma_dedup_of_distinct(u: Seq<Seq<char>>)
    requires
        no_duplicates(u),
    ensures
        dedup(u) == u,
    decreases u.len(),
{
    if u.len() > 0 {
        assert(no_duplicates(u.drop_last()));
        lemma_dedup_of_distinct(u.drop_last());
        assert(!u.drop_last().contains(u.last())) by {
            if u.drop_last().contains(u.last()) {
                let i = choose|i: int| 0 <= i < u.drop_last().len() && u.drop_last()[i] == u.last();
                assert(u[i] == u[u.len() - 1]);
            }
        }
        assert(u.drop_last().push(u.last()) =~= u);
    }
}

/// The entries of any text are well formed.
pub proof fn lemma_entries_well_formed(ls: Seq<Seq<char>>)
    requires
        forall|i: int| 0 <= i < ls.len() ==> crate::text::no_lf(#[trigger] ls[i]),
    ensures
        all_well_formed(nonblank_trimmed(ls)),
    decreases ls.len(),
{
    if ls.len() > 0 {
        lemma_entries_well_formed(ls.drop_last());
        let t = trim(ls.last());
        crate::text::lemma_trim_shape(ls.last());
        if t.len() > 0 {
            crate::text::lemma_trim_fixed(t);
            let r = nonblank_trimmed(ls.drop_last());
            assert forall|i: int| 0 <= i < r.push(t).len() implies well_formed_entry(
                #[trigger] r.push(t)[i],
            ) by {
                if i < r.len() {
                    assert(r.push(t)[i] == r[i]);
                }
            }
        }
    }
}

/// The entries of several archive files are well formed.
pub proof fn lemma_all_entries_well_formed(bodies: Seq<Seq<char>>)
    ensures
        all_well_formed(all_entries(bodies)),
    decreases bodies.len(),
{
    if bodies.len() > 0 {
        lemma_all_entries_well_formed(bodies.drop_last());
        crate::text::lemma_lines_no_lf(bodies.last());
        lemma_entries_well_formed(lines(bodies.last()));
        let a = all_entries(bodies.drop_last());
        let b = archive_entries(bodies.last());
        assert forall|i: int| 0 <= i < (a + b).len() implies well_formed_entry(#[trigger] (a
            + b)[i]) by {
            if i < a.len() {
                assert((a + b)[i] == a[i]);
            } else {
                assert((a + b)[i] == b[i - a.len()]);
            }
        }
    }
}

/// Splitting joined lines gives the lines back.
proof fn lemma_split_join(u: Seq<Seq<char>>)
    requires
        u.len() > 0,
        forall|i: int| 0 <= i < u.len() ==> crate::text::no_lf(#[trigger] u[i]),
    ensures
        crate::text::split_lf(join_lines(u)) == u,
    decreases u.len(),
{
    if u.len() == 1 {
        crate::text::lemma_split_lf_single(u[0]);
        assert(seq![u[0]] =~= u);
    } else {
        lemma_split_join(u.drop_last());
        crate::text::lemma_split_lf_concat(join_lines(u.drop_last()), u.last());
        crate::text::lemma_split_lf_single(u.last());
        assert(u.drop_last() + seq![u.last()] =~= u);
    }
}

/// The lines of non-empty text joined by line feeds, with a final line
/// feed, are the joined lines, when none holds a line feed or ends in `\r`.
pub proof fn lemma_lines_of_canonical(u: Seq<Seq<char>>)
    requires
        u.len() > 0,
        forall|i: int| 0 <= i < u.len() ==> crate::text::no_lf(#[trigger] u[i]),
        forall|i: int| 0 <= i < u.len() ==> crate::text::strip_cr(#[trigger] u[i]) == u[i],
    ensures
        lines(canonical_body(u)) == u,
{
    let body = canonical_body(u);
    let empty = Seq::<char>::empty();
    assert(body =~= join_lines(u) + seq!['\n'] + empty);
    crate::text::lemma_split_lf_concat(join_lines(u), empty);
    assert(crate::text::split_lf(empty) == seq![empty]);
    let p = crate::text::split_lf(body);
    lemma_split_join(u);
    assert(p =~= u.push(empty));
    assert(p.last().len() == 0);
    assert(p.drop_last() =~= u);
    assert(lines(body) =~= u);
}

/// Reading back the canonical text of well-formed entries gives those entries.
pub proof fn lemma_canonical_entries(u: Seq<Seq<char>>)
    requires
        all_well_formed(u),
    ensures
        archive_entries(canonical_body(u)) == u,
        canonical_body(u).len() > 0 && canonical_body(u).last() == '\n',
{
    let body = canonical_body(u);
    let empty = Seq::<char>::empty();
    if u.len() == 0 {
        assert(body =~= join_lines(u) + seq!['\n'] + empty);
        crate::text::lemma_split_lf_concat(join_lines(u), empty);
        assert(crate::text::split_lf(empty) == seq![empty]);
        let p = crate::text::split_lf(body);
        assert(join_lines(u) =~= empty);
        crate::text::lemma_split_lf_single(empty);
        assert(p =~= seq![empty, empty]);
        assert(p.last().len() == 0);
        assert(p.drop_last() =~= seq![empty]);
        assert(crate::text::strip_cr(empty) == empty);
        assert(lines(body) =~= seq![empty]);
        assert(seq![empty].drop_last() =~= Seq::<Seq<char>>::empty());
        assert(trim(empty) =~= empty);
        assert(nonblank_trimmed(seq![empty]) == nonblank_trimmed(Seq::<Seq<char>>::empty()));
        assert(archive_entries(body) =~= u);
    } else {
        assert forall|i: int| 0 <= i < u.len() implies crate::text::no_lf(#[trigger] u[i]) by {
            assert(well_formed_entry(u[i]));
        }
        assert forall|i: int| 0 <= i < u.len() implies crate::text::strip_cr(#[trigger] u[i])
            == u[i] by {
            assert(well_formed_entry(u[i]));
            crate::text::lemma_trim_shape(u[i]);
            assert(u[i].last() == trim(u[i]).last());
        }
        lemma_lines_of_canonical(u);
        lemma_nonblank_trimmed_fixed(u);
    }
}

/// Well-formed entries are their own entries.
proof fn lemma_nonblank_trimmed_fixed(u: Seq<Seq<char>>)
    requires
        all_well_formed(u),
    ensures
        nonblank_trimmed(u) == u,
    decreases u.len(),
{
    if u.len() > 0 {
        assert(all_well_formed(u.drop_last())) by {
            assert forall|i: int| 0 <= i < u.drop_last().len() implies well_formed_entry(
                #[trigger] u.drop_last()[i],
            ) by {
                assert(u.drop_last()[i] == u[i]);
            }
        }
        lemma_nonblank_trimmed_fixed(u.drop_last());
        assert(well_formed_entry(u[u.len() - 1]));
        assert(u.drop_last().push(u.last()) =~= u);
    }
}

/// Law: the union of archive files holds every entry of every file, each
/// exactly once, and nothing else.
pub proof fn lemma_union_is_every_entry_once(bodies: Seq<Seq<char>>)
    ensures
        no_duplicates(archive_union(bodies)),
        forall|x: Seq<char>| archive_union(bodies).contains(x) <==> all_entries(bodies).contains(x),
{
    lemma_dedup(all_entries(bodies));
}

/// The entries of files read in order are those of the first, then the rest.
proof fn lemma_all_entries_front(first: Seq<char>, rest: Seq<Seq<char>>)
    ensures
        all_entries(seq![first] + rest) == archive_entries(first) + all_entries(rest),
    decreases rest.len(),
{
    let s = seq![first] + rest;
    let none = Seq::<Seq<char>>::empty();
    if rest.len() == 0 {
        assert(s =~= seq![first]);
        assert(s.drop_last() =~= none);
        assert(s.last() == first);
        assert(all_entries(none) == none);
        assert(all_entries(s) == all_entries(s.drop_last()) + archive_entries(s.last()));
        assert(all_entries(s) =~= archive_entries(first));
        assert(archive_entries(first) + all_entries(rest) =~= archive_entries(first));
    } else {
        lemma_all_entries_front(first, rest.drop_last());
        assert(s.drop_last() =~= seq![first] + rest.drop_last());
        assert(s.last() == rest.last());
        assert(all_entries(s) == all_entries(s.drop_last()) + archive_entries(s.last()));
        assert(all_entries(rest) == all_entries(rest.drop_last()) + archive_entries(rest.last()));
        assert(archive_entries(first) + all_entries(rest) =~= archive_entries(first)
            + all_entries(rest.drop_last()) + archive_entries(rest.last()));
    }
}

/// Law: the file read first (the canonical archive) keeps its entries, in
/// order, at the front of the union.
pub proof fn lemma_union_keeps_first_file_first(first: Seq<char>, rest: Seq<Seq<char>>)
    ensures
        archive_union(seq![first] + rest).take(dedup(archive_entries(first)).len() as int)
            == dedup(archive_entries(first)),
{
    lemma_all_entries_front(first, rest);
    lemma_dedup_prefix(archive_entries(first), all_entries(rest));
}

/// Every entry of a union is well formed.
proof fn lemma_union_well_formed(bodies: Seq<Seq<char>>)
    ensures
        all_well_formed(archive_union(bodies)),
{
    let u = archive_union(bodies);
    lemma_dedup(all_entries(bodies));
    lemma_all_entries_well_formed(bodies);
    assert forall|i: int| 0 <= i < u.len() implies well_formed_entry(#[trigger] u[i]) by {
        assert(u.contains(u[i]));
        assert(all_entries(bodies).contains(u[i]));
        let j = choose|j: int| 0 <= j < all_entries(bodies).len() && all_entries(bodies)[j] == u[i];
        assert(well_formed_entry(all_entries(bodies)[j]));
    }
}

/// The canonical archive's text after materializing the union `u` over its
/// text `existing` (`None` when the file is absent), as `materialize_write`
/// decides: unchanged when `u` is empty or nothing must be written,
/// otherwise the canonical text of `u`.
pub open spec fn materialized(existing: Option<Seq<char>>, u: Seq<Seq<char>>) -> Option<Seq<char>> {
    if u.len() == 0 {
        existing
    } else {
        match existing {
            None => Some(canonical_body(u)),
            Some(raw) => if needs_write(raw, u) {
                Some(canonical_body(u))
            } else {
                Some(raw)
            },
        }
    }
}

/// Law: after materializing a non-empty union, the canonical archive exists,
/// ends with a line feed, and holds exactly the union's entries; reading
/// the directory again gives the same union, and a second materializing
/// writes nothing, whether the first one wrote or not.
pub proof fn lemma_materialized_archive_holds_union(
    canonical: Option<Seq<char>>,
    others: Seq<Seq<char>>,
)
    ensures
        ({
            let bodies = match canonical {
                Some(c) => seq![c] + others,
                None => others,
            };
            let u = archive_union(bodies);
            u.len() > 0 ==> (materialized(canonical, u) matches Some(after) && {
                &&& after.len() > 0 && after.last() == '\n'
                &&& forall|x: Seq<char>| archive_entries(after).contains(x) <==> u.contains(x)
                &&& archive_entries(after).to_set() == u.to_set()
                &&& archive_union(seq![after] + others) == u
                &&& !needs_write(after, u)
                &&& materialized(Some(after), u) == Some(after)
            })
        }),
{
    let bodies = match canonical {
        Some(c) => seq![c] + others,
        None => others,
    };
    let u = archive_union(bodies);
    if u.len() > 0 {
        let after = materialized(canonical, u)->0;
        let written = match canonical {
            None => true,
            Some(raw) => needs_write(raw, u),
        };
        if written {
            lemma_materialize_idempotent(canonical, others);
            lemma_union_well_formed(bodies);
            lemma_canonical_entries(u);
        } else {
            let raw = canonical->0;
            assert(bodies == seq![raw] + others);
            assert(raw.len() > 0 && raw.last() == '\n');
            lemma_dedup(all_entries(bodies));
            lemma_all_entries_front(raw, others);
            let e = archive_entries(raw);
            assert forall|x: Seq<char>| e.contains(x) <==> u.contains(x) by {
                if u.contains(x) {
                    let i = choose|i: int| 0 <= i < u.len() && u[i] == x;
                    assert(e.contains(u[i]));
                }
                if e.contains(x) {
                    let i = choose|i: int| 0 <= i < e.len() && e[i] == x;
                    assert(all_entries(bodies)[i] == x);
                    assert(all_entries(bodies).contains(x));
                }
            }
        }
        assert(archive_entries(after).to_set() =~= u.to_set());
    }
}

/// Law: materializing is idempotent. After the canonical archive is
/// rewritten with the union of the directory, reading the directory again
/// gives the same union, and the canonical archive needs no further write.
pub proof fn lemma_materialize_idempotent(canonical: Option<Seq<char>>, others: Seq<Seq<char>>)
    ensures
        ({
            let bodies = match canonical {
                Some(c) => seq![c] + others,
                None => others,
            };
            let u = archive_union(bodies);
            &&& archive_union(seq![canonical_body(u)] + others) == u
            &&& !needs_write(canonical_body(u), u)
        }),
{
    let bodies = match canonical {
        Some(c) => seq![c] + others,
        None => others,
    };
    let u = archive_union(bodies);
    lemma_dedup(all_entries(bodies));
    lemma_union_well_formed(bodies);
    lemma_canonical_entries(u);
    lemma_all_entries_front(canonical_body(u), others);
    assert forall|i: int| 0 <= i < all_entries(others).len() implies u.contains(
        #[trigger] all_entries(others)[i],
    ) by {
        let x = all_entries(others)[i];
        match canonical {
            Some(c) => {
                lemma_all_entries_front(c, others);
                let k = archive_entries(c).len() + i;
                assert(all_entries(bodies)[k] == x);
                assert(all_entries(bodies).contains(x));
            },
            None => {
                assert(all_entries(bodies)[i] == x);
                assert(all_entries(bodies).contains(x));
            },
        }
        assert(dedup(all_entries(bodies)).contains(x));
    }
    lemma_dedup_absorbs(u, all_entries(others));
    assert forall|i: int| 0 <= i < u.len() implies archive_entries(canonical_body(u)).contains(
        #[trigger] u[i],
    ) by {
        assert(archive_entries(canonical_body(u))[i] == u[i]);
    }
}

} // verus!
