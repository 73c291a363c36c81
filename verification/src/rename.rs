//! File renaming: sanitized names for downloaded files and the names tried
//! when a target already exists.
use vstd::prelude::*;
use crate::path::{
    extension_of, join, join_path, last_index_of, last_index_of_char, lemma_last_index_bound,
    name_extension, name_stem, stem_of,
};
use crate::text::{
    chars_eq, chars_of, copy_range, decimal, push_decimal, string_of, usize_to_string,
};

verus! {

broadcast use vstd::string::group_string_axioms;

/// Characters a sanitized name replaces by `_`: space, `/`, `:`, the
/// full-width colon and division slash YouTube titles use, quotes,
/// brackets, `\`, `&`, `$`, `@`, `#`, `|`, `*`, `?`, `<`, `>`, `,` and `-`.
pub open spec fn is_bad_char(c: char) -> bool {
    c == ' ' || c == '/' || c == ':' || c == '\u{FF1A}' || c == '\u{29F8}' || c == '\'' || c
        == '"' || c == '(' || c == ')' || c == '[' || c == ']' || c == '\\' || c == '&' || c
        == '$' || c == '@' || c == '#' || c == '|' || c == '*' || c == '?' || c == '<' || c
        == '>' || c == ',' || c == '-'
}

/// Executable `is_bad_char`.
fn bad_char(c: char) -> (r: bool)
    ensures
        r == is_bad_char(c),
{
    c == ' ' || c == '/' || c == ':' || c == '\u{FF1A}' || c == '\u{29F8}' || c == '\'' || c
        == '"' || c == '(' || c == ')' || c == '[' || c == ']' || c == '\\' || c == '&' || c
        == '$' || c == '@' || c == '#' || c == '|' || c == '*' || c == '?' || c == '<' || c
        == '>' || c == ',' || c == '-'
}

/// `s` with every bad character replaced by `_`.
pub open spec fn replace_bad(s: Seq<char>) -> Seq<char> {
    s.map_values(|c: char| if is_bad_char(c) { '_' } else { c })
}

/// `s` with each run of `_` shortened to one.
pub open spec fn collapse_underscores(s: Seq<char>) -> Seq<char>
    decreases s.len(),
{
    if s.len() == 0 {
        Seq::empty()
    } else {
        let r = collapse_underscores(s.drop_last());
        if s.last() == '_' && r.len() > 0 && r.last() == '_' {
            r
        } else {
            r.push(s.last())
        }
    }
}

/// `s` without leading `_`.
pub open spec fn trim_start_underscores(s: Seq<char>) -> Seq<char>
    decreases s.len(),
{
    if s.len() > 0 && s[0] == '_' {
        trim_start_underscores(s.drop_first())
    } else {
        s
    }
}

/// `s` without trailing `_`.
pub open spec fn trim_end_underscores(s: Seq<char>) -> Seq<char>
    decreases s.len(),
{
    if s.len() > 0 && s.last() == '_' {
        trim_end_underscores(s.drop_last())
    } else {
        s
    }
}

/// Runs of `_` shortened to one and `_` trimmed from both ends.
pub open spec fn normalize_underscores(s: Seq<char>) -> Seq<char> {
    trim_end_underscores(trim_start_underscores(collapse_underscores(s)))
}

/// The sanitized form of part of a name.
pub open spec fn clean(s: Seq<char>) -> Seq<char> {
    normalize_underscores(replace_bad(s))
}

/// The sanitized file name: before the extension (after the last `.`), the
/// title up to the last `-` is cleaned and the `-id` suffix kept; a name
/// without `.` is cleaned whole.
pub open spec fn sanitized_name(f: Seq<char>) -> Seq<char> {
    match last_index_of(f, '.') {
        None => clean(f),
        Some(d) => {
            let name = f.take(d);
            let ext = f.skip(d + 1);
            match last_index_of(name, '-') {
                Some(k) => clean(name.take(k)) + name.skip(k) + seq!['.'] + ext,
                None => clean(name) + seq!['.'] + ext,
            }
        },
    }
}

/// Executable `clean` on `v[from..to]`.
fn clean_range(v: &[char], from: usize, to: usize) -> (r: Vec<char>)
    requires
        from <= to <= v.len(),
    ensures
        r@ == clean(v@.subrange(from as int, to as int)),
{
    let ghost s = v@.subrange(from as int, to as int);
    let mut collapsed: Vec<char> = Vec::new();
    let mut i = from;
    while i < to
        invariant
            from <= i <= to <= v.len(),
            s == v@.subrange(from as int, to as int),
            collapsed@ == collapse_underscores(replace_bad(s).take(i - from)),
        decreases to - i,
    {
        let c = if bad_char(v[i]) {
            '_'
        } else {
            v[i]
        };
        assert(replace_bad(s)[i - from] == c);
        assert(replace_bad(s).take(i - from + 1).drop_last() =~= replace_bad(s).take(i - from));
        let n = collapsed.len();
        if !(c == '_' && n > 0 && collapsed[n - 1] == '_') {
            collapsed.push(c);
        }
        i = i + 1;
    }
    assert(replace_bad(s).take(to - from) =~= replace_bad(s));
    let m = collapsed.len();
    let mut a: usize = 0;
    assert(collapsed@.skip(0) =~= collapsed@);
    while a < m && collapsed[a] == '_'
        invariant
            a <= m == collapsed.len(),
            trim_start_underscores(collapsed@) == trim_start_underscores(collapsed@.skip(a as int)),
        decreases m - a,
    {
        assert(collapsed@.skip(a as int).drop_first() =~= collapsed@.skip(a + 1));
        a = a + 1;
    }
    let mut b: usize = m;
    assert(collapsed@.subrange(a as int, m as int) =~= collapsed@.skip(a as int));
    while b > a && collapsed[b - 1] == '_'
        invariant
            a <= b <= m == collapsed.len(),
            trim_start_underscores(collapsed@) == collapsed@.skip(a as int),
            normalize_underscores(replace_bad(s)) == trim_end_underscores(
                collapsed@.subrange(a as int, b as int),
            ),
        decreases b,
    {
        assert(collapsed@.subrange(a as int, b as int).drop_last() =~= collapsed@.subrange(
            a as int,
            b - 1,
        ));
        b = b - 1;
    }
    copy_range(&collapsed, a, b)
}

/// The sanitized form of the file name `file_name`.
pub fn sanitize_filename(file_name: &str) -> (r: String)
    ensures
        r@ == sanitized_name(file_name@),
{
    let f = chars_of(file_name);
    let n = f.len();
    proof {
        lemma_last_index_bound(f@, '.');
    }
    match last_index_of_char(&f, '.') {
        None => {
            assert(f@.subrange(0, n as int) =~= f@);
            string_of(&clean_range(&f, 0, n))
        },
        Some(d) => {
            let name = copy_range(&f, 0, d);
            assert(name@ =~= f@.take(d as int));
            let ext = copy_range(&f, d + 1, n);
            assert(ext@ =~= f@.skip(d + 1));
            proof {
                lemma_last_index_bound(name@, '-');
            }
            let mut out = match last_index_of_char(&name, '-') {
                Some(k) => {
                    let mut t = clean_range(&name, 0, k);
                    assert(name@.subrange(0, k as int) =~= name@.take(k as int));
                    let mut rest = copy_range(&name, k, d);
                    assert(rest@ =~= name@.skip(k as int));
                    t.append(&mut rest);
                    t
                },
                None => {
                    assert(name@.subrange(0, d as int) =~= name@);
                    clean_range(&name, 0, d)
                },
            };
            out.push('.');
            let mut e = ext;
            out.append(&mut e);
            assert(out@ =~= sanitized_name(file_name@));
            string_of(&out)
        },
    }
}

/// The new name for a file called `file_name`, when sanitizing changes it.
pub fn planned_rename(file_name: &str) -> (r: Option<String>)
    ensures
        sanitized_name(file_name@) == file_name@ ==> r is None,
        sanitized_name(file_name@) != file_name@ ==> (r matches Some(n) && n@ == sanitized_name(
            file_name@,
        )),
{
    let n = sanitize_filename(file_name);
    let a = chars_of(n.as_str());
    let b = chars_of(file_name);
    if chars_eq(&a, &b) {
        None
    } else {
        Some(n)
    }
}

/// Whether the file name `file_name` has the extension `ext`.
pub fn has_extension(file_name: &str, ext: &str) -> (r: bool)
    ensures
        r == (name_extension(file_name@) == Some(ext@)),
{
    let f = chars_of(file_name);
    let e = chars_of(ext);
    match extension_of(&f) {
        Some(x) => chars_eq(&x, &e),
        None => false,
    }
}

/// The name tried for the `counter`th conflict of `file_name` in `dir`:
/// `<stem>_<counter>.<extension>` beside it.
pub open spec fn conflict_name(file_name: Seq<char>, counter: nat) -> Seq<char> {
    let ext = match name_extension(file_name) {
        Some(e) => e,
        None => Seq::empty(),
    };
    name_stem(file_name) + seq!['_'] + decimal(counter) + seq!['.'] + ext
}

/// The path tried for the `counter`th conflict of `file_name` in `dir`.
pub fn conflict_candidate(dir: &str, file_name: &str, counter: u64) -> (r: String)
    ensures
        r@ == join(dir@, conflict_name(file_name@, counter as nat)),
{
    let f = chars_of(file_name);
    let mut out = stem_of(&f);
    out.push('_');
    push_decimal(&mut out, counter);
    out.push('.');
    match extension_of(&f) {
        Some(e) => {
            let mut e = e;
            out.append(&mut e);
        },
        None => {},
    }
    assert(out@ =~= conflict_name(file_name@, counter as nat));
    let name = string_of(&out);
    join_path(dir, name.as_str())
}


/// The characters sanitizing takes out of a title: space, `/`, `:`, `：`,
/// `⧸`, `'`, `"`, `(`, `)`, `[`, `]`, `\`, `&`, `$`, `@`, `#`, `|`, `*`,
/// `?`, `<`, `>`, `,` and `-`.
pub open spec fn listed_title_chars() -> Seq<char> {
    seq![
        ' ', '/', ':', '\u{FF1A}', '\u{29F8}', '\'', '"', '(', ')', '[', ']', '\\', '&', '$',
        '@', '#', '|', '*', '?', '<', '>', ',', '-',
    ]
}

/// Cleaned text holds none of the listed characters.
proof fn lemma_clean_has_no_listed_char(s: Seq<char>)
    ensures
        forall|i: int| 0 <= i < clean(s).len() ==> !listed_title_chars().contains(#[trigger] clean(s)[i]),
{
    lemma_clean_is_clean(s);
    let l = listed_title_chars();
    assert forall|k: int| 0 <= k < l.len() implies is_bad_char(#[trigger] l[k]) by {}
    assert forall|i: int| 0 <= i < clean(s).len() implies !l.contains(#[trigger] clean(s)[i]) by {
        if l.contains(clean(s)[i]) {
            let k = choose|k: int| 0 <= k < l.len() && l[k] == clean(s)[i];
            assert(is_bad_char(l[k]));
        }
    }
}

/// The title part of a sanitized name: what precedes its last `-` before
/// its last `.` (all of the part before the `.` when there is no `-`).
pub open spec fn sanitized_title_part(g: Seq<char>) -> Seq<char> {
    let name = match last_index_of(g, '.') {
        Some(d) => g.take(d),
        None => g,
    };
    match last_index_of(name, '-') {
        Some(k) => name.take(k),
        None => name,
    }
}

/// Law: a sanitized name's title part holds none of the listed characters
/// (the apostrophe included); only the `-id` suffix and the extension keep
/// their text.
pub proof fn lemma_sanitized_title_has_no_listed_char(f: Seq<char>)
    ensures
        forall|i: int|
            0 <= i < sanitized_title_part(sanitized_name(f)).len() ==> !listed_title_chars().contains(
                #[trigger] sanitized_title_part(sanitized_name(f))[i],
            ),
{
    let g = sanitized_name(f);
    lemma_last_index_bound(f, '.');
    match last_index_of(f, '.') {
        None => {
            lemma_clean_keeps(f, |c: char| c != '.');
            assert forall|j: int| 0 <= j < g.len() implies g[j] != '.' by {
                assert((|c: char| c != '.')(g[j]));
            }
            crate::path::lemma_last_index_exact(g, '.', 0);
            lemma_clean_is_clean(f);
            assert(is_bad_char('-'));
            assert forall|j: int| 0 <= j < g.len() implies g[j] != '-' by {
                assert(!is_bad_char(g[j]));
            }
            crate::path::lemma_last_index_exact(g, '-', 0);
            assert(sanitized_title_part(g) == g);
            lemma_clean_has_no_listed_char(f);
        },
        Some(d) => {
            let name = f.take(d);
            let ext = f.skip(d + 1);
            assert forall|j: int| 0 <= j < ext.len() implies ext[j] != '.' by {
                assert(ext[j] == f[d + 1 + j]);
            }
            lemma_last_index_bound(name, '-');
            let a = match last_index_of(name, '-') {
                Some(k) => clean(name.take(k)),
                None => clean(name),
            };
            let b = match last_index_of(name, '-') {
                Some(k) => name.skip(k),
                None => Seq::<char>::empty(),
            };
            let ab = a + b;
            assert(g =~= ab + seq!['.'] + ext);
            let dd = ab.len() as int;
            assert forall|j: int| dd < j < g.len() implies g[j] != '.' by {
                assert(g[j] == ext[j - dd - 1]);
            }
            crate::path::lemma_last_index_exact(g, '.', dd);
            assert(g.take(dd) =~= ab);
            assert(is_bad_char('-'));
            match last_index_of(name, '-') {
                Some(k) => {
                    lemma_clean_is_clean(name.take(k));
                    assert forall|j: int| a.len() < j < ab.len() implies ab[j] != '-' by {
                        assert(ab[j] == name[k + j - a.len()]);
                    }
                    assert(ab[a.len() as int] == name[k]);
                    crate::path::lemma_last_index_exact(ab, '-', a.len() as int);
                    assert(ab.take(a.len() as int) =~= a);
                    lemma_clean_has_no_listed_char(name.take(k));
                },
                None => {
                    lemma_clean_is_clean(name);
                    assert(ab =~= a);
                    assert forall|j: int| 0 <= j < ab.len() implies ab[j] != '-' by {
                        assert(!is_bad_char(a[j]));
                    }
                    crate::path::lemma_last_index_exact(ab, '-', 0);
                    lemma_clean_has_no_listed_char(name);
                },
            }
            assert(sanitized_title_part(g) == a);
        },
    }
}

/// The path a rename of `file_name` in `dir` tries at its `tried`th
/// attempt: the name itself first, then `<stem>_<n>.<extension>` for
/// n = 1, 2, … until one is free.
pub open spec fn rename_target_spec(dir: Seq<char>, file_name: Seq<char>, tried: nat) -> Seq<char> {
    if tried == 0 {
        join(dir, file_name)
    } else {
        join(dir, conflict_name(file_name, tried))
    }
}

/// The path to try at the `tried`th attempt of renaming to `file_name` in `dir`.
pub fn rename_target(dir: &str, file_name: &str, tried: u64) -> (r: String)
    ensures
        r@ == rename_target_spec(dir@, file_name@, tried as nat),
{
    if tried == 0 {
        join_path(dir, file_name)
    } else {
        conflict_candidate(dir, file_name, tried)
    }
}

/// The line a finished rename prints.
pub open spec fn rename_summary_line(renamed: nat) -> Seq<char> {
    "✓ Renamed "@ + decimal(renamed) + " files."@
}

/// The line a finished rename prints after renaming `renamed` files.
pub fn rename_summary(renamed: usize) -> (r: String)
    ensures
        r@ == rename_summary_line(renamed as nat),
{
    let mut s = "✓ Renamed ".to_owned();
    let d = usize_to_string(renamed);
    s.append(d.as_str());
    s.append(" files.");
    s
}

/// The line a dry run prints.
pub open spec fn dry_run_summary_line(planned: nat) -> Seq<char> {
    "✓ Dry run complete. Would rename "@ + decimal(planned) + " files."@
}

/// The line a dry run prints when `planned` renames were found.
pub fn dry_run_summary(planned: usize) -> (r: String)
    ensures
        r@ == dry_run_summary_line(planned as nat),
{
    let mut s = "✓ Dry run complete. Would rename ".to_owned();
    let d = usize_to_string(planned);
    s.append(d.as_str());
    s.append(" files.");
    s
}

/// Characters a title-derived file name cannot hold: `/`, `\\`, `:`, `*`,
/// `?`, `"`, `<`, `>` and `|`.
pub open spec fn is_unsafe_name_char(c: char) -> bool {
    c == '/' || c == '\\' || c == ':' || c == '*' || c == '?' || c == '"' || c == '<' || c == '>'
        || c == '|'
}

/// `s` with each unsafe character replaced by `_`, cut to its first 80 characters.
pub open spec fn sanitized_title(s: Seq<char>) -> Seq<char> {
    let m = s.map_values(|c: char| if is_unsafe_name_char(c) { '_' } else { c });
    if m.len() <= 80 {
        m
    } else {
        m.take(80)
    }
}

/// A file-name-safe form of a title: unsafe characters become `_`, and at
/// most 80 characters are kept.
pub fn sanitize(s: &str) -> (r: String)
    ensures
        r@ == sanitized_title(s@),
{
    let v = chars_of(s);
    let n = if v.len() <= 80 {
        v.len()
    } else {
        80
    };
    let ghost m = s@.map_values(|c: char| if is_unsafe_name_char(c) { '_' } else { c });
    let mut out: Vec<char> = Vec::new();
    for i in 0..n
        invariant
            n <= v.len(),
            v@ == s@,
            m == s@.map_values(|c: char| if is_unsafe_name_char(c) { '_' } else { c }),
            out@ == m.take(i as int),
    {
        let c = v[i];
        let safe = if c == '/' || c == '\\' || c == ':' || c == '*' || c == '?' || c == '"' || c
            == '<' || c == '>' || c == '|' {
            '_'
        } else {
            c
        };
        out.push(safe);
        assert(m.take(i + 1) =~= m.take(i as int).push(safe));
    }
    assert(out@ =~= sanitized_title(s@));
    string_of(&out)
}

/// Every character of `s` satisfies `p`.
pub open spec fn all_chars(s: Seq<char>, p: spec_fn(char) -> bool) -> bool {
    forall|i: int| 0 <= i < s.len() ==> p(#[trigger] s[i])
}

/// No two `_` stand side by side in `s`.
pub open spec fn no_double_underscore(s: Seq<char>) -> bool {
    forall|i: int, j: int|
        0 <= i && j == i + 1 && j < s.len() ==> !(#[trigger] s[i] == '_' && #[trigger] s[j] == '_')
}

/// A name part as cleaning leaves it: no character to replace, no run of
/// `_`, and no `_` at either end.
pub open spec fn is_clean(s: Seq<char>) -> bool {
    &&& forall|i: int| 0 <= i < s.len() ==> !is_bad_char(#[trigger] s[i])
    &&& no_double_underscore(s)
    &&& s.len() > 0 ==> s[0] != '_' && s.last() != '_'
}

/// A part of `s` keeps what holds of all of `s`'s characters and pairs.
proof fn lemma_subrange_keeps(s: Seq<char>, a: int, b: int, p: spec_fn(char) -> bool)
    requires
        0 <= a <= b <= s.len(),
    ensures
        all_chars(s, p) ==> all_chars(s.subrange(a, b), p),
        no_double_underscore(s) ==> no_double_underscore(s.subrange(a, b)),
{
    let t = s.subrange(a, b);
    if all_chars(s, p) {
        assert forall|i: int| 0 <= i < t.len() implies p(#[trigger] t[i]) by {
            assert(t[i] == s[a + i]);
        }
    }
    if no_double_underscore(s) {
        assert forall|i: int, j: int| 0 <= i && j == i + 1 && j < t.len() implies !(
        #[trigger] t[i] == '_' && #[trigger] t[j] == '_') by {
            assert(t[i] == s[a + i] && t[j] == s[a + j]);
            assert(!(s[a + i] == '_' && s[a + j] == '_'));
        }
    }
}

/// Collapsing leaves no run of `_`, keeps what holds of every character
/// (if it holds of `_`), and changes nothing where there is no run.
proof fn lemma_collapse(s: Seq<char>, p: spec_fn(char) -> bool)
    ensures
        no_double_underscore(collapse_underscores(s)),
        all_chars(s, p) ==> all_chars(collapse_underscores(s), p),
        no_double_underscore(s) ==> collapse_underscores(s) == s,
    decreases s.len(),
{
    if s.len() > 0 {
        let q = s.drop_last();
        lemma_collapse(q, p);
        let r = collapse_underscores(q);
        let c = s.last();
        if !(c == '_' && r.len() > 0 && r.last() == '_') {
            let o = r.push(c);
            assert forall|i: int, j: int| 0 <= i && j == i + 1 && j < o.len() implies !(
            #[trigger] o[i] == '_' && #[trigger] o[j] == '_') by {
                if j < r.len() {
                    assert(o[i] == r[i] && o[j] == r[j]);
                    assert(!(r[i] == '_' && r[j] == '_'));
                } else {
                    assert(o[i] == r.last() && o[j] == c);
                }
            }
            if all_chars(s, p) {
                assert(all_chars(q, p)) by {
                    assert forall|i: int| 0 <= i < q.len() implies p(#[trigger] q[i]) by {
                        assert(q[i] == s[i]);
                    }
                }
                assert forall|i: int| 0 <= i < o.len() implies p(#[trigger] o[i]) by {
                    if i < r.len() {
                        assert(o[i] == r[i]);
                    } else {
                        assert(p(s[s.len() - 1]));
                    }
                }
            }
        } else if all_chars(s, p) {
            assert(all_chars(q, p)) by {
                assert forall|i: int| 0 <= i < q.len() implies p(#[trigger] q[i]) by {
                    assert(q[i] == s[i]);
                }
            }
        }
        if no_double_underscore(s) {
            assert(no_double_underscore(q)) by {
                assert forall|i: int, j: int| 0 <= i && j == i + 1 && j < q.len() implies !(
                #[trigger] q[i] == '_' && #[trigger] q[j] == '_') by {
                    assert(q[i] == s[i] && q[j] == s[j]);
                    assert(!(s[i] == '_' && s[j] == '_'));
                }
            }
            if c == '_' && r.len() > 0 && r.last() == '_' {
                assert(r.last() == s[s.len() - 2]);
                assert(!(s[s.len() - 2] == '_' && s[s.len() - 1] == '_'));
            }
            assert(q.push(c) =~= s);
        }
    }
}

/// Trimming leading `_` drops a prefix and leaves no leading `_`.
proof fn lemma_trim_start_underscores(s: Seq<char>)
    ensures
        exists|k: int| 0 <= k <= s.len() && trim_start_underscores(s) == #[trigger] s.skip(k),
        trim_start_underscores(s).len() > 0 ==> trim_start_underscores(s)[0] != '_',
    decreases s.len(),
{
    if s.len() > 0 && s[0] == '_' {
        let t = s.drop_first();
        lemma_trim_start_underscores(t);
        let k = choose|k: int| 0 <= k <= t.len() && trim_start_underscores(t) == #[trigger] t.skip(k);
        assert(t.skip(k) =~= s.skip(k + 1));
    } else {
        assert(s.skip(0) =~= s);
    }
}

/// Trimming trailing `_` keeps a prefix and leaves no trailing `_`.
proof fn lemma_trim_end_underscores(s: Seq<char>)
    ensures
        exists|j: int| 0 <= j <= s.len() && trim_end_underscores(s) == #[trigger] s.take(j),
        trim_end_underscores(s).len() > 0 ==> trim_end_underscores(s).last() != '_',
    decreases s.len(),
{
    if s.len() > 0 && s.last() == '_' {
        let t = s.drop_last();
        lemma_trim_end_underscores(t);
        let j = choose|j: int| 0 <= j <= t.len() && trim_end_underscores(t) == #[trigger] t.take(j);
        assert(t.take(j) =~= s.take(j));
    } else {
        assert(s.take(s.len() as int) =~= s);
    }
}

/// Normalizing keeps what holds of every character (if it holds of `_`),
/// and leaves no run of `_` and no `_` at either end.
proof fn lemma_normalize(s: Seq<char>, p: spec_fn(char) -> bool)
    ensures
        all_chars(s, p) ==> all_chars(normalize_underscores(s), p),
        no_double_underscore(normalize_underscores(s)),
        normalize_underscores(s).len() > 0 ==> normalize_underscores(s)[0] != '_'
            && normalize_underscores(s).last() != '_',
{
    lemma_collapse(s, p);
    let c = collapse_underscores(s);
    lemma_trim_start_underscores(c);
    let k = choose|k: int| 0 <= k <= c.len() && trim_start_underscores(c) == #[trigger] c.skip(k);
    let t = trim_start_underscores(c);
    assert(c.skip(k) =~= c.subrange(k, c.len() as int));
    lemma_subrange_keeps(c, k, c.len() as int, p);
    lemma_trim_end_underscores(t);
    let j = choose|j: int| 0 <= j <= t.len() && trim_end_underscores(t) == #[trigger] t.take(j);
    assert(t.take(j) =~= t.subrange(0, j));
    lemma_subrange_keeps(t, 0, j, p);
    let e = trim_end_underscores(t);
    if e.len() > 0 {
        assert(e[0] == t[0]);
    }
}

/// Cleaning keeps what holds of every character and of `_`.
proof fn lemma_clean_keeps(s: Seq<char>, p: spec_fn(char) -> bool)
    requires
        p('_'),
        all_chars(s, p),
    ensures
        all_chars(clean(s), p),
{
    let x = replace_bad(s);
    assert forall|i: int| 0 <= i < x.len() implies p(#[trigger] x[i]) by {
        assert(p(s[i]));
    }
    lemma_normalize(x, p);
}

/// What cleaning produces is clean.
pub proof fn lemma_clean_is_clean(s: Seq<char>)
    ensures
        is_clean(clean(s)),
{
    let p = |c: char| !is_bad_char(c);
    let x = replace_bad(s);
    assert forall|i: int| 0 <= i < x.len() implies p(#[trigger] x[i]) by {
        assert(!is_bad_char('_'));
    }
    lemma_normalize(x, p);
    let r = clean(s);
    assert forall|i: int| 0 <= i < r.len() implies !is_bad_char(#[trigger] r[i]) by {
        assert(p(r[i]));
    }
}

/// Cleaning changes nothing that is already clean.
pub proof fn lemma_clean_fixed(s: Seq<char>)
    requires
        is_clean(s),
    ensures
        clean(s) == s,
{
    assert(replace_bad(s) =~= s);
    lemma_collapse(s, |c: char| true);
}

/// Law: sanitizing is idempotent. A sanitized name sanitizes to itself,
/// so renaming a directory a second time plans no rename.
pub proof fn lemma_sanitize_idempotent(f: Seq<char>)
    ensures
        sanitized_name(sanitized_name(f)) == sanitized_name(f),
{
    let g = sanitized_name(f);
    let no_dot = |c: char| c != '.';
    lemma_last_index_bound(f, '.');
    match last_index_of(f, '.') {
        None => {
            assert(all_chars(f, no_dot));
            lemma_clean_keeps(f, no_dot);
            assert forall|j: int| 0 <= j < g.len() implies g[j] != '.' by {
                assert(no_dot(g[j]));
            }
            crate::path::lemma_last_index_exact(g, '.', 0);
            lemma_clean_is_clean(f);
            lemma_clean_fixed(g);
        },
        Some(d) => {
            let name = f.take(d);
            let ext = f.skip(d + 1);
            assert forall|j: int| 0 <= j < ext.len() implies ext[j] != '.' by {
                assert(ext[j] == f[d + 1 + j]);
            }
            lemma_last_index_bound(name, '-');
            let (a, b) = match last_index_of(name, '-') {
                Some(k) => (clean(name.take(k)), name.skip(k)),
                None => (clean(name), Seq::<char>::empty()),
            };
            let ab = a + b;
            assert(g =~= ab + seq!['.'] + ext);
            let dd = ab.len() as int;
            assert forall|j: int| dd < j < g.len() implies g[j] != '.' by {
                assert(g[j] == ext[j - dd - 1]);
            }
            crate::path::lemma_last_index_exact(g, '.', dd);
            assert(g.take(dd) =~= ab);
            assert(g.skip(dd + 1) =~= ext);
            match last_index_of(name, '-') {
                Some(k) => {
                    lemma_clean_is_clean(name.take(k));
                    lemma_clean_fixed(a);
                    assert(is_bad_char('-'));
                    assert forall|j: int| a.len() < j < ab.len() implies ab[j] != '-' by {
                        assert(ab[j] == name[k + j - a.len()]);
                    }
                    assert(ab[a.len() as int] == name[k]);
                    crate::path::lemma_last_index_exact(ab, '-', a.len() as int);
                    assert(ab.take(a.len() as int) =~= a);
                    assert(ab.skip(a.len() as int) =~= b);
                },
                None => {
                    lemma_clean_is_clean(name);
                    lemma_clean_fixed(a);
                    assert(ab =~= a);
                    assert forall|j: int| 0 <= j < ab.len() implies ab[j] != '-' by {
                        assert(!is_bad_char(a[j]) && is_bad_char('-'));
                    }
                    crate::path::lemma_last_index_exact(ab, '-', 0);
                },
            }
        },
    }
}

} // verus!
