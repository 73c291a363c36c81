//! Character-level text helpers shared by the parsers and renderers.
//!
//! Text is modelled as its sequence of Unicode scalar values (`Seq<char>`),
//! which is the view vstd gives `str` and `String`.
use vstd::prelude::*;

verus! {

broadcast use vstd::string::group_string_axioms;

/// Copies the characters of `s` into a vector.
pub fn chars_of(s: &str) -> (v: Vec<char>)
    ensures
        v@ == s@,
{
    let mut v: Vec<char> = Vec::new();
    for c in it: s.chars()
        invariant
            it.seq() == s@,
            v@ == it.seq().take(it.index() as int),
    {
        v.push(c);
    }
    v
}

/// `String::push`: appends one character.
#[verifier::external_body]
fn push_char(s: &mut String, c: char)
    ensures
        final(s)@ == old(s)@.push(c),
{
    s.push(c);
}

/// Builds a `String` holding exactly the characters `v`.
pub fn string_of(v: &[char]) -> (s: String)
    ensures
        s@ == v@,
{
    let mut s = String::new();
    for i in 0..v.len()
        invariant
            s@ == v@.take(i as int),
    {
        push_char(&mut s, v[i]);
        assert(v@.take(i + 1) == v@.take(i as int).push(v@[i as int]));
    }
    assert(v@.take(v.len() as int) == v@);
    s
}

/// Whether two character vectors are equal.
pub fn chars_eq(a: &[char], b: &[char]) -> (r: bool)
    ensures
        r == (a@ == b@),
{
    if a.len() != b.len() {
        return false;
    }
    for i in 0..a.len()
        invariant
            a.len() == b.len(),
            forall|j: int| 0 <= j < i ==> a@[j] == b@[j],
    {
        if a[i] != b[i] {
            return false;
        }
    }
    assert(a@ =~= b@);
    true
}

/// Unicode `White_Space`, the set that `char::is_whitespace` and `str::trim` use.
pub open spec fn is_ws(c: char) -> bool {
    ||| c == '\t' || c == '\n' || c == '\u{0B}' || c == '\u{0C}' || c == '\r' || c == ' '
    ||| c == '\u{85}' || c == '\u{A0}' || c == '\u{1680}'
    ||| ('\u{2000}' <= c && c <= '\u{200A}')
    ||| c == '\u{2028}' || c == '\u{2029}' || c == '\u{202F}' || c == '\u{205F}' || c == '\u{3000}'
}

/// Executable `is_ws`.
pub fn is_whitespace(c: char) -> (r: bool)
    ensures
        r == is_ws(c),
{
    c == '\t' || c == '\n' || c == '\u{0B}' || c == '\u{0C}' || c == '\r' || c == ' ' || c
        == '\u{85}' || c == '\u{A0}' || c == '\u{1680}' || ('\u{2000}' <= c && c <= '\u{200A}')
        || c == '\u{2028}' || c == '\u{2029}' || c == '\u{202F}' || c == '\u{205F}' || c
        == '\u{3000}'
}


/// Copies `v[from..to]` into a new vector.
pub fn copy_range(v: &[char], from: usize, to: usize) -> (r: Vec<char>)
    requires
        from <= to <= v.len(),
    ensures
        r@ == v@.subrange(from as int, to as int),
{
    let mut r: Vec<char> = Vec::new();
    let mut i = from;
    while i < to
        invariant
            from <= i <= to <= v.len(),
            r@ == v@.subrange(from as int, i as int),
        decreases to - i,
    {
        r.push(v[i]);
        i = i + 1;
        assert(r@ =~= v@.subrange(from as int, i as int));
    }
    r
}

/// `s` without its leading whitespace.
pub open spec fn trim_start(s: Seq<char>) -> Seq<char>
    decreases s.len(),
{
    if s.len() > 0 && is_ws(s[0]) {
        trim_start(s.drop_first())
    } else {
        s
    }
}

/// `s` without its trailing whitespace.
pub open spec fn trim_end(s: Seq<char>) -> Seq<char>
    decreases s.len(),
{
    if s.len() > 0 && is_ws(s.last()) {
        trim_end(s.drop_last())
    } else {
        s
    }
}

/// `s` without leading and trailing whitespace (`str::trim`).
pub open spec fn trim(s: Seq<char>) -> Seq<char> {
    trim_end(trim_start(s))
}

/// Executable `trim`.
pub fn trim_chars(v: &[char]) -> (r: Vec<char>)
    ensures
        r@ == trim(v@),
{
    let n = v.len();
    let mut i: usize = 0;
    assert(v@.skip(0) =~= v@);
    while i < n && is_whitespace(v[i])
        invariant
            i <= n == v.len(),
            trim_start(v@) == trim_start(v@.skip(i as int)),
        decreases n - i,
    {
        assert(v@.skip(i as int).drop_first() =~= v@.skip(i + 1));
        i = i + 1;
    }
    let mut j: usize = n;
    assert(v@.skip(i as int).take((j - i) as int) =~= v@.skip(i as int));
    while j > i && is_whitespace(v[j - 1])
        invariant
            i <= j <= n == v.len(),
            trim_start(v@) == v@.skip(i as int),
            trim(v@) == trim_end(v@.subrange(i as int, j as int)),
        decreases j,
    {
        assert(v@.subrange(i as int, j as int).drop_last() =~= v@.subrange(i as int, j - 1));
        j = j - 1;
    }
    copy_range(v, i, j)
}

/// Removes one trailing carriage return.
pub open spec fn strip_cr(l: Seq<char>) -> Seq<char> {
    if l.len() > 0 && l.last() == '\r' {
        l.drop_last()
    } else {
        l
    }
}

/// The pieces of `s` between line feeds; there is always at least one.
pub open spec fn split_lf(s: Seq<char>) -> Seq<Seq<char>>
    decreases s.len(),
{
    if s.len() == 0 {
        seq![Seq::empty()]
    } else {
        let p = split_lf(s.drop_last());
        if s.last() == '\n' {
            p.push(Seq::empty())
        } else {
            p.update(p.len() - 1, p.last().push(s.last()))
        }
    }
}

/// The lines of `s` as `str::lines` yields them: split at `\n`, a `\r`
/// before the `\n` removed, and no empty line after a final `\n`.
pub open spec fn lines(s: Seq<char>) -> Seq<Seq<char>> {
    let p = split_lf(s);
    let ended = p.drop_last().map_values(|l: Seq<char>| strip_cr(l));
    if p.last().len() == 0 {
        ended
    } else {
        ended.push(p.last())
    }
}

/// The views of a vector of character vectors.
pub open spec fn views(v: Seq<Vec<char>>) -> Seq<Seq<char>> {
    v.map_values(|x: Vec<char>| x@)
}

pub proof fn lemma_split_lf_nonempty(s: Seq<char>)
    ensures
        split_lf(s).len() >= 1,
    decreases s.len(),
{
    if s.len() > 0 {
        lemma_split_lf_nonempty(s.drop_last());
    }
}

/// The last piece of `split_lf(s)` is empty exactly when `s` is empty or ends with a line feed.
pub proof fn lemma_split_lf_last_empty(s: Seq<char>)
    ensures
        split_lf(s).len() >= 1,
        (split_lf(s).last().len() == 0) == (s.len() == 0 || s.last() == '\n'),
{
    lemma_split_lf_nonempty(s);
    if s.len() > 0 {
        lemma_split_lf_nonempty(s.drop_last());
    }
}

/// Removes one trailing carriage return (executable `strip_cr`).
fn strip_cr_chars(l: &Vec<char>) -> (r: Vec<char>)
    ensures
        r@ == strip_cr(l@),
{
    let n = l.len();
    if n > 0 && l[n - 1] == '\r' {
        copy_range(l, 0, n - 1)
    } else {
        copy_range(l, 0, n)
    }
}

/// Splits `text` into lines exactly as `lines` describes.
pub fn lines_of(text: &[char]) -> (r: Vec<Vec<char>>)
    ensures
        views(r@) == lines(text@),
{
    let mut pieces: Vec<Vec<char>> = Vec::new();
    let mut cur: Vec<char> = Vec::new();
    let n = text.len();
    for i in 0..n
        invariant
            n == text.len(),
            views(pieces@).push(cur@) == split_lf(text@.take(i as int)),
    {
        let c = text[i];
        assert(text@.take(i + 1).drop_last() =~= text@.take(i as int));
        proof {
            lemma_split_lf_nonempty(text@.take(i as int));
        }
        if c == '\n' {
            let ghost old_pieces = pieces@;
            let ghost old_cur = cur@;
            pieces.push(cur);
            cur = Vec::new();
            assert(views(pieces@) =~= views(old_pieces).push(old_cur));
            assert(views(pieces@).push(cur@) =~= split_lf(text@.take(i + 1)));
        } else {
            let ghost old_cur = cur@;
            cur.push(c);
            assert(views(pieces@).push(cur@) =~= views(pieces@).push(old_cur).update(
                pieces@.len() as int,
                old_cur.push(c),
            ));
        }
    }
    assert(text@.take(n as int) =~= text@);
    let ghost p = split_lf(text@);
    proof {
        lemma_split_lf_last_empty(text@);
        assert(views(pieces@) =~= p.drop_last());
    }
    let mut r: Vec<Vec<char>> = Vec::new();
    for k in 0..pieces.len()
        invariant
            p.len() >= 1,
            views(pieces@) == p.drop_last(),
            views(r@) =~= p.drop_last().take(k as int).map_values(|l: Seq<char>| strip_cr(l)),
    {
        let l = strip_cr_chars(&pieces[k]);
        assert(views(pieces@)[k as int] == pieces@[k as int]@);
        let ghost old_r = r@;
        r.push(l);
        assert(views(r@) =~= views(old_r).push(l@));
        assert(views(r@) =~= p.drop_last().take(k + 1).map_values(|l: Seq<char>| strip_cr(l)));
    }
    assert(p.drop_last().take(pieces.len() as int) =~= p.drop_last());
    if cur.len() > 0 {
        r.push(cur);
        assert(views(r@) =~= lines(text@));
    } else {
        assert(views(r@) =~= lines(text@));
    }
    r
}


/// `s` holds no line feed.
pub open spec fn no_lf(s: Seq<char>) -> bool {
    forall|i: int| 0 <= i < s.len() ==> s[i] != '\n'
}

/// Text without a line feed is a single piece.
pub proof fn lemma_split_lf_single(s: Seq<char>)
    requires
        no_lf(s),
    ensures
        split_lf(s) == seq![s],
    decreases s.len(),
{
    if s.len() > 0 {
        assert(no_lf(s.drop_last()));
        assert(s.last() != '\n');
        lemma_split_lf_single(s.drop_last());
        assert(s.drop_last().push(s.last()) =~= s);
        assert(seq![s.drop_last()].update(0, s.drop_last().push(s.last())) =~= seq![s]);
    } else {
        assert(s =~= Seq::<char>::empty());
    }
}

/// Splitting around a line feed splits each side.
pub proof fn lemma_split_lf_concat(a: Seq<char>, b: Seq<char>)
    ensures
        split_lf(a + seq!['\n'] + b) == split_lf(a) + split_lf(b),
    decreases b.len(),
{
    let x = a + seq!['\n'] + b;
    if b.len() == 0 {
        assert(x.drop_last() =~= a);
        assert(split_lf(a) + split_lf(b) =~= split_lf(a).push(Seq::empty()));
    } else {
        let b2 = b.drop_last();
        lemma_split_lf_concat(a, b2);
        lemma_split_lf_nonempty(b2);
        lemma_split_lf_nonempty(a);
        assert(x.drop_last() =~= a + seq!['\n'] + b2);
        let p = split_lf(a) + split_lf(b2);
        if b.last() == '\n' {
            assert(split_lf(a) + split_lf(b) =~= p.push(Seq::empty()));
        } else {
            let q = split_lf(b2);
            assert(split_lf(b) == q.update(q.len() - 1, q.last().push(b.last())));
            assert(split_lf(a) + split_lf(b) =~= p.update(p.len() - 1, p.last().push(b.last())));
        }
    }
}

/// No piece of `split_lf(s)` holds a line feed.
pub proof fn lemma_split_lf_pieces(s: Seq<char>)
    ensures
        forall|i: int| 0 <= i < split_lf(s).len() ==> no_lf(#[trigger] split_lf(s)[i]),
    decreases s.len(),
{
    if s.len() > 0 {
        lemma_split_lf_pieces(s.drop_last());
        lemma_split_lf_nonempty(s.drop_last());
        let p = split_lf(s.drop_last());
        if s.last() != '\n' {
            assert forall|i: int| 0 <= i < split_lf(s).len() implies no_lf(#[trigger] split_lf(s)[i]) by {
                if i == p.len() - 1 {
                    assert(no_lf(p[i]));
                    assert(split_lf(s)[i] == p[i].push(s.last()));
                }
            }
        } else {
            assert forall|i: int| 0 <= i < split_lf(s).len() implies no_lf(#[trigger] split_lf(s)[i]) by {
                if i < p.len() {
                    assert(split_lf(s)[i] == p[i]);
                }
            }
        }
    }
}

/// No line of `s` holds a line feed.
pub proof fn lemma_lines_no_lf(s: Seq<char>)
    ensures
        forall|i: int| 0 <= i < lines(s).len() ==> no_lf(#[trigger] lines(s)[i]),
{
    lemma_split_lf_pieces(s);
    lemma_split_lf_nonempty(s);
    let p = split_lf(s);
    assert forall|i: int| 0 <= i < lines(s).len() implies no_lf(#[trigger] lines(s)[i]) by {
        if i < p.len() - 1 {
            assert(lines(s)[i] == strip_cr(p[i]));
            assert(no_lf(p[i]));
        } else {
            assert(lines(s)[i] == p.last());
            assert(no_lf(p[p.len() - 1]));
        }
    }
}

proof fn lemma_trim_start_shape(s: Seq<char>)
    ensures
        exists|k: int| 0 <= k <= s.len() && trim_start(s) == #[trigger] s.skip(k),
        trim_start(s).len() > 0 ==> !is_ws(trim_start(s)[0]),
    decreases s.len(),
{
    if s.len() > 0 && is_ws(s[0]) {
        lemma_trim_start_shape(s.drop_first());
        let k = choose|k: int| 0 <= k <= s.drop_first().len() && trim_start(s.drop_first()) == #[trigger] s.drop_first().skip(k);
        assert(s.drop_first().skip(k) =~= s.skip(k + 1));
    } else {
        assert(s.skip(0) =~= s);
    }
}

proof fn lemma_trim_end_shape(s: Seq<char>)
    ensures
        exists|k: int| 0 <= k <= s.len() && trim_end(s) == #[trigger] s.take(k),
        trim_end(s).len() > 0 ==> !is_ws(trim_end(s).last()),
    decreases s.len(),
{
    if s.len() > 0 && is_ws(s.last()) {
        lemma_trim_end_shape(s.drop_last());
        let k = choose|k: int| 0 <= k <= s.drop_last().len() && trim_end(s.drop_last()) == #[trigger] s.drop_last().take(k);
        assert(s.drop_last().take(k) =~= s.take(k));
    } else {
        assert(s.take(s.len() as int) =~= s);
    }
}

/// Trimmed text that is not empty begins and ends with non-whitespace, and
/// keeps `no_lf` from the untrimmed text.
pub proof fn lemma_trim_shape(s: Seq<char>)
    ensures
        trim(s).len() > 0 ==> !is_ws(trim(s)[0]) && !is_ws(trim(s).last()),
        no_lf(s) ==> no_lf(trim(s)),
{
    lemma_trim_start_shape(s);
    let t = trim_start(s);
    lemma_trim_end_shape(t);
    let k = choose|k: int| 0 <= k <= s.len() && trim_start(s) == #[trigger] s.skip(k);
    let j = choose|j: int| 0 <= j <= t.len() && trim_end(t) == #[trigger] t.take(j);
    if trim(s).len() > 0 {
        assert(trim(s)[0] == t[0]);
    }
    if no_lf(s) {
        assert forall|i: int| 0 <= i < trim(s).len() implies trim(s)[i] != '\n' by {
            assert(trim(s)[i] == s[k + i]);
        }
    }
}

/// Text that begins and ends with non-whitespace is its own trim.
pub proof fn lemma_trim_fixed(s: Seq<char>)
    requires
        s.len() > 0 ==> !is_ws(s[0]) && !is_ws(s.last()),
    ensures
        trim(s) == s,
{
}

/// Bytes UTF-8 takes to encode `c`.
pub open spec fn char_width(c: char) -> nat {
    if (c < '\u{80}') {
        1
    } else if (c < '\u{800}') {
        2
    } else if (c < '\u{10000}') {
        3
    } else {
        4
    }
}

/// Bytes UTF-8 takes to encode `s` (what `str::len` returns).
pub open spec fn utf8_len(s: Seq<char>) -> nat
    decreases s.len(),
{
    if s.len() == 0 {
        0
    } else {
        utf8_len(s.drop_last()) + char_width(s.last())
    }
}

/// The last `b` bytes of the encoding of `s` are whole characters, so
/// `b` bytes before the end is a character boundary.
pub open spec fn byte_boundary_from_end(s: Seq<char>, b: nat) -> bool
    decreases s.len(),
{
    if b == 0 {
        true
    } else if s.len() == 0 {
        false
    } else if char_width(s.last()) > b {
        false
    } else {
        byte_boundary_from_end(s.drop_last(), (b - char_width(s.last())) as nat)
    }
}

/// Executable `byte_boundary_from_end`.
pub fn is_byte_boundary_from_end(v: &[char], b: usize) -> (r: bool)
    ensures
        r == byte_boundary_from_end(v@, b as nat),
{
    let mut k = v.len();
    let mut left = b;
    assert(v@.take(k as int) =~= v@);
    while left > 0
        invariant
            k <= v.len(),
            left <= b,
            byte_boundary_from_end(v@, b as nat) == byte_boundary_from_end(
                v@.take(k as int),
                left as nat,
            ),
        decreases left,
    {
        if k == 0 {
            return false;
        }
        let c = v[k - 1];
        let w: usize = if (c < '\u{80}') {
            1
        } else if (c < '\u{800}') {
            2
        } else if (c < '\u{10000}') {
            3
        } else {
            4
        };
        if w > left {
            return false;
        }
        assert(v@.take(k as int).drop_last() =~= v@.take(k - 1));
        left = left - w;
        k = k - 1;
    }
    true
}

/// Whether `v` takes at least `cap` bytes in UTF-8.
pub fn utf8_len_at_least(v: &[char], cap: usize) -> (r: bool)
    requires
        cap < 1024,
    ensures
        r == (utf8_len(v@) >= cap),
{
    let mut total: usize = 0;
    let mut i: usize = 0;
    while i < v.len() && total < cap
        invariant
            i <= v.len(),
            cap < 1024,
            total == utf8_len(v@.take(i as int)),
            total < cap + 4,
        decreases v.len() - i,
    {
        let c = v[i];
        let w: usize = if (c < '\u{80}') {
            1
        } else if (c < '\u{800}') {
            2
        } else if (c < '\u{10000}') {
            3
        } else {
            4
        };
        assert(v@.take(i + 1).drop_last() =~= v@.take(i as int));
        total = total + w;
        i = i + 1;
    }
    proof {
        lemma_utf8_len_prefix(v@, i as int);
        if i == v.len() {
            assert(v@.take(i as int) =~= v@);
        }
    }
    total >= cap
}

/// Every character takes at least one byte.
pub proof fn lemma_utf8_len_at_least_chars(s: Seq<char>)
    ensures
        utf8_len(s) >= s.len(),
    decreases s.len(),
{
    if s.len() > 0 {
        lemma_utf8_len_at_least_chars(s.drop_last());
    }
}

/// The encoding of a prefix is no longer than the encoding of the whole.
pub proof fn lemma_utf8_len_prefix(s: Seq<char>, k: int)
    requires
        0 <= k <= s.len(),
    ensures
        utf8_len(s.take(k)) <= utf8_len(s),
    decreases s.len() - k,
{
    if k < s.len() {
        lemma_utf8_len_prefix(s, k + 1);
        assert(s.take(k + 1).drop_last() =~= s.take(k));
    } else {
        assert(s.take(k) =~= s);
    }
}

/// The decimal digit for `d < 10`.
pub open spec fn digit_char(d: nat) -> char {
    if d == 0 { '0' }
    else if d == 1 { '1' }
    else if d == 2 { '2' }
    else if d == 3 { '3' }
    else if d == 4 { '4' }
    else if d == 5 { '5' }
    else if d == 6 { '6' }
    else if d == 7 { '7' }
    else if d == 8 { '8' }
    else { '9' }
}

/// Decimal notation of `n` without leading zeros.
pub open spec fn decimal(n: nat) -> Seq<char>
    decreases n,
{
    if n < 10 {
        seq![digit_char(n)]
    } else {
        decimal(n / 10).push(digit_char(n % 10))
    }
}

/// Decimal notation of an integer, with `-` before a negative one.
pub open spec fn signed_decimal(i: int) -> Seq<char> {
    if i < 0 {
        seq!['-'] + decimal((-i) as nat)
    } else {
        decimal(i as nat)
    }
}

fn digit(d: u64) -> (c: char)
    requires
        d < 10,
    ensures
        c == digit_char(d as nat),
{
    if d == 0 { '0' }
    else if d == 1 { '1' }
    else if d == 2 { '2' }
    else if d == 3 { '3' }
    else if d == 4 { '4' }
    else if d == 5 { '5' }
    else if d == 6 { '6' }
    else if d == 7 { '7' }
    else if d == 8 { '8' }
    else { '9' }
}

/// Appends the decimal notation of `n` to `out`.
pub fn push_decimal(out: &mut Vec<char>, n: u64)
    ensures
        final(out)@ == old(out)@ + decimal(n as nat),
    decreases n,
{
    if n < 10 {
        out.push(digit(n));
        assert(decimal(n as nat) =~= seq![digit_char(n as nat)]);
    } else {
        push_decimal(out, n / 10);
        out.push(digit(n % 10));
    }
}

/// Decimal notation of `n`.
pub fn usize_to_string(n: usize) -> (r: String)
    ensures
        r@ == decimal(n as nat),
{
    let mut v: Vec<char> = Vec::new();
    push_decimal(&mut v, n as u64);
    assert(v@ =~= decimal(n as nat));
    string_of(&v)
}

/// Decimal notation of `n`, signed.
pub fn i32_to_string(n: i32) -> (r: String)
    ensures
        r@ == signed_decimal(n as int),
{
    let mut v: Vec<char> = Vec::new();
    if n < 0 {
        v.push('-');
        let m: i64 = -(n as i64);
        push_decimal(&mut v, m as u64);
    } else {
        push_decimal(&mut v, n as u64);
    }
    assert(v@ =~= signed_decimal(n as int));
    string_of(&v)
}

/// The sixteen lower-case hexadecimal digits.
pub open spec fn hex_digits() -> Seq<char> {
    seq!['0', '1', '2', '3', '4', '5', '6', '7', '8', '9', 'a', 'b', 'c', 'd', 'e', 'f']
}

/// `n` in lower-case hexadecimal, without leading zeros.
pub open spec fn hex_text(n: nat) -> Seq<char>
    decreases n,
{
    if n < 16 {
        seq![hex_digits()[n as int]]
    } else {
        hex_text(n / 16).push(hex_digits()[(n % 16) as int])
    }
}

/// A control character: below U+0020, or U+007F to U+009F.
pub open spec fn is_control(c: char) -> bool {
    (c as u32) < 0x20 || (0x7f <= (c as u32) && (c as u32) <= 0x9f)
}

/// How `{:?}` writes `c` inside a quoted string: `\0`, `\t`, `\r`, `\n`,
/// `\\` and `\"` for those characters, `\u{hex}` for other control
/// characters, and the character itself otherwise.
pub open spec fn escape_debug_char(c: char) -> Seq<char> {
    if c == '\0' {
        seq!['\\', '0']
    } else if c == '\t' {
        seq!['\\', 't']
    } else if c == '\r' {
        seq!['\\', 'r']
    } else if c == '\n' {
        seq!['\\', 'n']
    } else if c == '\\' {
        seq!['\\', '\\']
    } else if c == '"' {
        seq!['\\', '"']
    } else if is_control(c) {
        seq!['\\', 'u', '{'] + hex_text((c as u32) as nat) + seq!['}']
    } else {
        seq![c]
    }
}

/// Every character of `s` escaped as `{:?}` escapes it.
pub open spec fn escape_debug(s: Seq<char>) -> Seq<char>
    decreases s.len(),
{
    if s.len() == 0 {
        Seq::empty()
    } else {
        escape_debug(s.drop_last()) + escape_debug_char(s.last())
    }
}

/// `s` as `{:?}` writes a string: quoted, with its characters escaped.
pub open spec fn debug_quoted(s: Seq<char>) -> Seq<char> {
    seq!['"'] + escape_debug(s) + seq!['"']
}

/// The hexadecimal digit of `n`.
fn hex_digit(n: u32) -> (r: char)
    requires
        n < 16,
    ensures
        r == hex_digits()[n as int],
{
    match n {
        0 => '0',
        1 => '1',
        2 => '2',
        3 => '3',
        4 => '4',
        5 => '5',
        6 => '6',
        7 => '7',
        8 => '8',
        9 => '9',
        10 => 'a',
        11 => 'b',
        12 => 'c',
        13 => 'd',
        14 => 'e',
        _ => 'f',
    }
}

/// Appends `c` as `{:?}` writes it inside a quoted string.
fn push_escaped(out: &mut Vec<char>, c: char)
    ensures
        final(out)@ == old(out)@ + escape_debug_char(c),
{
    let ghost before = out@;
    if c == '\0' {
        out.push('\\');
        out.push('0');
    } else if c == '\t' {
        out.push('\\');
        out.push('t');
    } else if c == '\r' {
        out.push('\\');
        out.push('r');
    } else if c == '\n' {
        out.push('\\');
        out.push('n');
    } else if c == '\\' {
        out.push('\\');
        out.push('\\');
    } else if c == '"' {
        out.push('\\');
        out.push('"');
    } else if (c as u32) < 0x20 || (0x7f <= (c as u32) && (c as u32) <= 0x9f) {
        let n = c as u32;
        out.push('\\');
        out.push('u');
        out.push('{');
        if n < 16 {
            out.push(hex_digit(n));
            assert(hex_text(n as nat) == seq![hex_digits()[n as int]]);
        } else {
            out.push(hex_digit(n / 16));
            out.push(hex_digit(n % 16));
            assert(hex_text((n / 16) as nat) == seq![hex_digits()[(n / 16) as int]]);
            assert(hex_text(n as nat) =~= seq![hex_digits()[(n / 16) as int]].push(
                hex_digits()[(n % 16) as int],
            ));
        }
        out.push('}');
    } else {
        out.push(c);
    }
    assert(out@ =~= before + escape_debug_char(c));
}

/// `s` as `{:?}` writes a string.
pub fn debug_quote(s: &str) -> (r: String)
    ensures
        r@ == debug_quoted(s@),
{
    let v = chars_of(s);
    let mut out: Vec<char> = Vec::new();
    out.push('"');
    for i in 0..v.len()
        invariant
            v@ == s@,
            out@ == seq!['"'] + escape_debug(v@.take(i as int)),
    {
        assert(v@.take(i + 1).drop_last() =~= v@.take(i as int));
        push_escaped(&mut out, v[i]);
        assert(out@ =~= seq!['"'] + escape_debug(v@.take(i + 1)));
    }
    out.push('"');
    assert(v@.take(v.len() as int) =~= v@);
    assert(out@ =~= debug_quoted(s@));
    string_of(&out)
}

/// Trimming the start of text with a whitespace character appended keeps
/// that character at the end, unless nothing is left.
proof fn lemma_trim_start_push_ws(y: Seq<char>, c: char)
    requires
        is_ws(c),
    ensures
        trim_start(y.push(c)) == if trim_start(y).len() == 0 {
            Seq::<char>::empty()
        } else {
            trim_start(y).push(c)
        },
    decreases y.len(),
{
    let e = Seq::<char>::empty();
    if y.len() == 0 {
        assert(y.push(c)[0] == c);
        assert(y.push(c).drop_first() =~= e);
        assert(trim_start(e) == e);
        assert(trim_start(y) == e);
    } else if is_ws(y[0]) {
        assert(y.push(c)[0] == y[0]);
        assert(y.push(c).drop_first() =~= y.drop_first().push(c));
        lemma_trim_start_push_ws(y.drop_first(), c);
    } else {
        assert(y.push(c)[0] == y[0]);
    }
}

/// A trailing whitespace character does not change the trim.
pub proof fn lemma_trim_push_ws(y: Seq<char>, c: char)
    requires
        is_ws(c),
    ensures
        trim(y.push(c)) == trim(y),
{
    lemma_trim_start_push_ws(y, c);
    let t = trim_start(y);
    if t.len() > 0 {
        assert(t.push(c).drop_last() =~= t);
    }
}

/// Removing a final `\r` does not change the trim.
pub proof fn lemma_trim_strip_cr(l: Seq<char>)
    ensures
        trim(strip_cr(l)) == trim(l),
{
    if l.len() > 0 && l.last() == '\r' {
        lemma_trim_push_ws(l.drop_last(), '\r');
        assert(l.drop_last().push('\r') =~= l);
    }
}

} // verus!
