//! Slash-separated paths, held as text, and the parts of them the tool reads:
//! joining, the final file name, its stem and its extension.
use vstd::prelude::*;
use crate::text::{chars_of, copy_range, string_of};

verus! {

/// The characters after the last `/` of `p`.
pub open spec fn last_piece(p: Seq<char>) -> Seq<char>
    decreases p.len(),
{
    if p.len() == 0 || p.last() == '/' {
        Seq::empty()
    } else {
        last_piece(p.drop_last()).push(p.last())
    }
}

/// Where the final component of `p` lies when it is a normal name
/// (`Path::file_name`): trailing slashes and `.` components are skipped,
/// and a final `..` or an empty path has no file name.
pub open spec fn file_name_bounds(p: Seq<char>) -> Option<(int, int)>
    decreases p.len(),
{
    if p.len() == 0 {
        None
    } else if p.last() == '/' {
        file_name_bounds(p.drop_last())
    } else {
        let piece = last_piece(p);
        if piece.len() == 0 || piece.len() > p.len() {
            None
        } else if piece =~= seq!['.'] {
            file_name_bounds(p.subrange(0, p.len() - 1))
        } else if piece =~= seq!['.', '.'] {
            None
        } else {
            Some((p.len() - piece.len(), p.len() as int))
        }
    }
}

/// The final component of `p` when it is a normal name (`Path::file_name`).
pub open spec fn file_name(p: Seq<char>) -> Option<Seq<char>> {
    match file_name_bounds(p) {
        Some((a, b)) => Some(p.subrange(a, b)),
        None => None,
    }
}

/// The bounds of a file name lie inside the path.
pub proof fn lemma_file_name_bounds(p: Seq<char>)
    ensures
        file_name_bounds(p) matches Some((a, b)) ==> 0 <= a < b <= p.len(),
    decreases p.len(),
{
    if p.len() > 0 {
        if p.last() == '/' {
            lemma_file_name_bounds(p.drop_last());
        } else {
            let piece = last_piece(p);
            if !(piece.len() == 0 || piece.len() > p.len()) && piece =~= seq!['.'] {
                lemma_file_name_bounds(p.subrange(0, p.len() - 1));
            }
        }
    }
}

/// `Path::with_extension`: the path cut right after the stem of its file
/// name, then `.` and `ext` unless `ext` is empty; unchanged without a file name.
pub open spec fn with_extension(p: Seq<char>, ext: Seq<char>) -> Seq<char> {
    match file_name_bounds(p) {
        Some((a, b)) => {
            let stem = name_stem(p.subrange(a, b));
            p.take(a + stem.len()) + if ext.len() > 0 {
                seq!['.'] + ext
            } else {
                Seq::empty()
            }
        },
        None => p,
    }
}

/// Whether `c` occurs in `s`.
pub open spec fn has_char(s: Seq<char>, c: char) -> bool {
    exists|i: int| 0 <= i < s.len() && s[i] == c
}

/// Index of the last `c` in `s`, if any.
pub open spec fn last_index_of(s: Seq<char>, c: char) -> Option<int>
    decreases s.len(),
{
    if s.len() == 0 {
        None
    } else if s.last() == c {
        Some(s.len() - 1)
    } else {
        last_index_of(s.drop_last(), c)
    }
}

/// The stem of a file name (`Path::file_stem` on a name): the part before
/// the last `.`, or the whole name when it has no `.` or only a leading one.
pub open spec fn name_stem(name: Seq<char>) -> Seq<char> {
    match last_index_of(name, '.') {
        Some(i) => if i == 0 { name } else { name.subrange(0, i) },
        None => name,
    }
}

/// The extension of a file name (`Path::extension` on a name).
pub open spec fn name_extension(name: Seq<char>) -> Option<Seq<char>> {
    match last_index_of(name, '.') {
        Some(i) => if i == 0 { None } else { Some(name.subrange(i + 1, name.len() as int)) },
        None => None,
    }
}

/// `Path::join` on slash-separated text: an absolute `part` replaces `base`,
/// otherwise a single `/` separates them unless `base` is empty or already
/// ends with one.
pub open spec fn join(base: Seq<char>, part: Seq<char>) -> Seq<char> {
    if part.len() > 0 && part[0] == '/' {
        part
    } else if base.len() == 0 {
        part
    } else if base.last() == '/' {
        base + part
    } else {
        base + seq!['/'] + part
    }
}

proof fn lemma_last_piece_len(p: Seq<char>)
    ensures
        last_piece(p).len() <= p.len(),
        last_piece(p) =~= p.subrange(p.len() - last_piece(p).len(), p.len() as int),
        last_piece(p).len() < p.len() ==> p[p.len() - last_piece(p).len() - 1] == '/',
        forall|i: int| 0 <= i < last_piece(p).len() ==> last_piece(p)[i] != '/',
    decreases p.len(),
{
    if p.len() > 0 && p.last() != '/' {
        lemma_last_piece_len(p.drop_last());
    }
}

/// Executable `join`.
pub fn join_path(base: &str, part: &str) -> (r: String)
    ensures
        r@ == join(base@, part@),
{
    let b = chars_of(base);
    let p = chars_of(part);
    let mut out: Vec<char> = Vec::new();
    if p.len() > 0 && p[0] == '/' {
        return string_of(&p);
    }
    if b.len() == 0 {
        return string_of(&p);
    }
    let mut r = string_of(&b);
    if b[b.len() - 1] != '/' {
        r.append("/");
        proof {
            reveal_strlit("/");
        }
    }
    r.append(part);
    assert(r@ =~= join(base@, part@));
    r
}

/// Executable `last_piece`: the start index of the last piece of `p`.
fn last_piece_start(p: &[char], end: usize) -> (k: usize)
    requires
        end <= p.len(),
    ensures
        k <= end,
        p@.subrange(k as int, end as int) == last_piece(p@.take(end as int)),
{
    let mut k = end;
    proof {
        lemma_last_piece_len(p@.take(end as int));
    }
    while k > 0 && p[k - 1] != '/'
        invariant
            k <= end <= p.len(),
            last_piece(p@.take(end as int)) =~= last_piece(p@.take(k as int)) + p@.subrange(
                k as int,
                end as int,
            ),
        decreases k,
    {
        assert(p@.take(k as int).drop_last() =~= p@.take(k - 1));
        assert(p@.subrange(k - 1, end as int) =~= seq![p@[k - 1]] + p@.subrange(
            k as int,
            end as int,
        ));
        k = k - 1;
    }
    assert(last_piece(p@.take(k as int)) =~= Seq::<char>::empty());
    k
}

/// Executable `file_name_bounds`.
pub fn file_name_range(path: &[char]) -> (r: Option<(usize, usize)>)
    ensures
        match r {
            Some((a, b)) => file_name_bounds(path@) == Some((a as int, b as int)) && a < b
                <= path.len(),
            None => file_name_bounds(path@) is None,
        },
{
    let mut end = path.len();
    assert(path@.take(end as int) =~= path@);
    loop
        invariant
            end <= path.len(),
            file_name_bounds(path@) == file_name_bounds(path@.take(end as int)),
        decreases end,
    {
        if end == 0 {
            return None;
        }
        let ghost t = path@.take(end as int);
        if path[end - 1] == '/' {
            assert(t.drop_last() =~= path@.take(end - 1));
            end = end - 1;
        } else {
            let k = last_piece_start(path, end);
            proof {
                lemma_last_piece_len(t);
            }
            let len = end - k;
            if len == 1 && path[k] == '.' {
                assert(last_piece(t) =~= seq!['.']);
                assert(t.subrange(0, t.len() - 1) =~= path@.take(k as int));
                end = k;
            } else if len == 2 && path[k] == '.' && path[k + 1] == '.' {
                assert(last_piece(t) =~= seq!['.', '.']);
                return None;
            } else {
                assert(last_piece(t) == path@.subrange(k as int, end as int));
                if len == 1 {
                    assert(last_piece(t)[0] == path@[k as int]);
                } else if len == 2 {
                    assert(last_piece(t)[0] == path@[k as int]);
                    assert(last_piece(t)[1] == path@[k + 1]);
                }
                assert(!(last_piece(t) =~= seq!['.']));
                assert(!(last_piece(t) =~= seq!['.', '.']));
                return Some((k, end));
            }
        }
    }
}

/// Executable `file_name`.
pub fn file_name_of(path: &[char]) -> (r: Option<Vec<char>>)
    ensures
        match r {
            Some(v) => file_name(path@) == Some(v@),
            None => file_name(path@) is None,
        },
{
    match file_name_range(path) {
        Some((a, b)) => Some(copy_range(path, a, b)),
        None => None,
    }
}

/// Executable `last_index_of`.
pub fn last_index_of_char(s: &[char], c: char) -> (r: Option<usize>)
    ensures
        match r {
            Some(i) => last_index_of(s@, c) == Some(i as int),
            None => last_index_of(s@, c) is None,
        },
{
    let mut j = s.len();
    assert(s@.take(j as int) =~= s@);
    while j > 0
        invariant
            j <= s.len(),
            last_index_of(s@, c) == last_index_of(s@.take(j as int), c),
        decreases j,
    {
        if s[j - 1] == c {
            return Some(j - 1);
        }
        assert(s@.take(j as int).drop_last() =~= s@.take(j - 1));
        j = j - 1;
    }
    None
}

/// A stem is a prefix of the name.
pub proof fn lemma_name_stem_len(name: Seq<char>)
    ensures
        name_stem(name).len() <= name.len(),
        name_stem(name) =~= name.take(name_stem(name).len() as int),
{
    lemma_last_index_bound(name, '.');
}

/// Executable `name_stem`.
pub fn stem_of(name: &[char]) -> (r: Vec<char>)
    ensures
        r@ == name_stem(name@),
{
    proof {
        lemma_last_index_bound(name@, '.');
    }
    match last_index_of_char(name, '.') {
        Some(i) => if i == 0 {
            copy_range(name, 0, name.len())
        } else {
            copy_range(name, 0, i)
        },
        None => copy_range(name, 0, name.len()),
    }
}

/// Executable `name_extension`.
pub fn extension_of(name: &[char]) -> (r: Option<Vec<char>>)
    ensures
        match r {
            Some(v) => name_extension(name@) == Some(v@),
            None => name_extension(name@) is None,
        },
{
    proof {
        lemma_last_index_bound(name@, '.');
    }
    match last_index_of_char(name, '.') {
        Some(i) => {
            if i == 0 {
                None
            } else {
                assert(last_index_of(name@, '.') == Some(i as int));
                assert(i < name.len());
                Some(copy_range(name, i + 1, name.len()))
            }
        },
        None => None,
    }
}

/// `last_index_of` lands on an occurrence inside the sequence.
pub proof fn lemma_last_index_bound(s: Seq<char>, c: char)
    ensures
        match last_index_of(s, c) {
            Some(i) => 0 <= i < s.len() && s[i] == c && forall|j: int| i < j < s.len() ==> s[j] != c,
            None => forall|j: int| 0 <= j < s.len() ==> s[j] != c,
        },
    decreases s.len(),
{
    if s.len() > 0 && s.last() != c {
        lemma_last_index_bound(s.drop_last(), c);
        assert(forall|j: int| 0 <= j < s.len() - 1 ==> s.drop_last()[j] == s[j]);
    }
}


/// `last_index_of` is the position of the last `c`, and `None` exactly when `c` is absent.
pub proof fn lemma_last_index_exact(s: Seq<char>, c: char, i: int)
    ensures
        0 <= i < s.len() && s[i] == c && (forall|j: int| i < j < s.len() ==> s[j] != c)
            ==> last_index_of(s, c) == Some(i),
        (forall|j: int| 0 <= j < s.len() ==> s[j] != c) ==> last_index_of(s, c) is None,
{
    lemma_last_index_bound(s, c);
}

/// The last piece of a name placed after a `/` (or at the start) is that name.
proof fn lemma_last_piece_after_slash(pre: Seq<char>, name: Seq<char>)
    requires
        pre.len() == 0 || pre.last() == '/',
        forall|i: int| 0 <= i < name.len() ==> name[i] != '/',
    ensures
        last_piece(pre + name) == name,
    decreases name.len(),
{
    if name.len() == 0 {
        assert(pre + name =~= pre);
    } else {
        let q = name.drop_last();
        lemma_last_piece_after_slash(pre, q);
        assert((pre + name).drop_last() =~= pre + q);
        assert(q.push(name.last()) =~= name);
    }
}

/// A name without `/` (other than `.` and `..`) joined onto any base is the
/// file name of the result.
pub proof fn lemma_file_name_of_join(base: Seq<char>, name: Seq<char>)
    requires
        name.len() > 0,
        forall|i: int| 0 <= i < name.len() ==> name[i] != '/',
        name != seq!['.'],
        name != seq!['.', '.'],
    ensures
        file_name(join(base, name)) == Some(name),
{
    let p = join(base, name);
    let pre = if base.len() == 0 {
        Seq::<char>::empty()
    } else if base.last() == '/' {
        base
    } else {
        base + seq!['/']
    };
    assert(p =~= pre + name);
    lemma_last_piece_after_slash(pre, name);
    assert(p.last() == name.last());
    assert(p.subrange(p.len() - name.len(), p.len() as int) =~= name);
}

} // verus!
