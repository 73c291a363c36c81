//! Classification of the lines yt-dlp prints while downloading.
use vstd::prelude::*;
use crate::text::{chars_eq, chars_of, copy_range, string_of};
use crate::types::{find_chars, find_from, lemma_find_from_first, occurs_at};

verus! {

broadcast use vstd::string::group_string_axioms;

/// A classified yt-dlp output line.
#[derive(Debug, Clone, PartialEq, Eq)]
pub enum YtDlpEvent {
    /// A download-progress line (`[download]` plus a `%`); `percent` is the
    /// decimal text before the first `%` when it reads as a number.
    Progress { raw: String, percent: Option<String> },
    /// An error yt-dlp reports on standard error (a line starting `ERROR:`).
    Error { raw: String },
    /// Any other line (destination, archive skip, merger, …).
    Log { raw: String },
}

/// Whether `c` may stand in a percentage: an ASCII digit or `.`.
pub open spec fn is_number_char(c: char) -> bool {
    ('0' <= c && c <= '9') || c == '.'
}

/// The digits and dots that run up to index `end` of `s`.
pub open spec fn number_run_start(s: Seq<char>, end: int) -> int
    decreases end,
{
    if end <= 0 || !is_number_char(s[end - 1]) {
        end
    } else {
        number_run_start(s, end - 1)
    }
}

/// How many times `c` occurs in `s`.
pub open spec fn count_char(s: Seq<char>, c: char) -> nat
    decreases s.len(),
{
    if s.len() == 0 {
        0
    } else {
        count_char(s.drop_last(), c) + if s.last() == c {
            1nat
        } else {
            0nat
        }
    }
}

/// Text of digits and dots that reads as a decimal number: at least one
/// digit and at most one dot.
pub open spec fn is_decimal_text(t: Seq<char>) -> bool {
    count_char(t, '.') <= 1 && count_char(t, '.') < t.len()
}

/// The percentage a progress line shows: the run of digits and dots just
/// before its first `%`, when it reads as a number.
pub open spec fn line_percent(l: Seq<char>) -> Option<Seq<char>> {
    match find_from(l, seq!['%'], 0) {
        Some(end) => {
            let t = l.subrange(number_run_start(l, end), end);
            if is_decimal_text(t) {
                Some(t)
            } else {
                None
            }
        },
        None => None,
    }
}

/// A progress line holds `[download]` and a `%`.
pub open spec fn is_progress_line(l: Seq<char>) -> bool {
    find_from(l, "[download]"@, 0) is Some && find_from(l, seq!['%'], 0) is Some
}

proof fn lemma_number_run_start(s: Seq<char>, end: int)
    requires
        0 <= end <= s.len(),
    ensures
        0 <= number_run_start(s, end) <= end,
        forall|i: int| number_run_start(s, end) <= i < end ==> is_number_char(#[trigger] s[i]),
    decreases end,
{
    if end > 0 && is_number_char(s[end - 1]) {
        lemma_number_run_start(s, end - 1);
    }
}

/// Executable `line_percent` given where the first `%` is.
fn percent_before(v: &[char], end: usize) -> (r: Option<Vec<char>>)
    requires
        end <= v.len(),
    ensures
        match r {
            Some(t) => {
                let u = v@.subrange(number_run_start(v@, end as int), end as int);
                is_decimal_text(u) && t@ == u
            },
            None => !is_decimal_text(v@.subrange(number_run_start(v@, end as int), end as int)),
        },
{
    let mut start = end;
    while start > 0 && (('0' <= v[start - 1] && v[start - 1] <= '9') || v[start - 1] == '.')
        invariant
            start <= end <= v.len(),
            number_run_start(v@, end as int) == number_run_start(v@, start as int),
        decreases start,
    {
        start = start - 1;
    }
    let t = copy_range(v, start, end);
    let mut dots: usize = 0;
    for i in 0..t.len()
        invariant
            dots == count_char(t@.take(i as int), '.'),
            dots <= i,
    {
        assert(t@.take(i + 1).drop_last() =~= t@.take(i as int));
        if t[i] == '.' {
            dots = dots + 1;
        }
    }
    assert(t@.take(t.len() as int) =~= t@);
    if dots <= 1 && dots < t.len() {
        Some(t)
    } else {
        None
    }
}

/// `e` is what line `l` is classified as: progress with its percentage
/// when the line is a progress line, otherwise a log line.
pub open spec fn classifies(e: YtDlpEvent, l: Seq<char>) -> bool {
    if is_progress_line(l) {
        e matches YtDlpEvent::Progress { raw, percent } && raw@ == l && match percent {
            Some(p) => line_percent(l) == Some(p@),
            None => line_percent(l) is None,
        }
    } else {
        e matches YtDlpEvent::Log { raw } && raw@ == l
    }
}

/// Classifies one yt-dlp output line.
pub fn classify_yt_dlp_line(line: &str) -> (r: YtDlpEvent)
    ensures
        classifies(r, line@),
{
    let v = chars_of(line);
    let marker = chars_of("[download]");
    let pct = vec!['%'];
    assert(pct@ =~= seq!['%']);
    let has_marker = find_chars(&v, &marker);
    let first_pct = find_chars(&v, &pct);
    match (has_marker, first_pct) {
        (Some(_), Some(end)) => {
            let percent = match percent_before(&v, end) {
                Some(t) => Some(string_of(&t)),
                None => None,
            };
            YtDlpEvent::Progress { raw: line.to_owned(), percent }
        },
        _ => YtDlpEvent::Log { raw: line.to_owned() },
    }
}

/// Whether `l` is an error report: it starts with `ERROR:`.
pub open spec fn is_error_line(l: Seq<char>) -> bool {
    l.len() >= 6 && l.take(6) == "ERROR:"@
}

/// `e` is what a line `l` of standard error is classified as: an error when
/// it starts with `ERROR:`, otherwise as any output line.
pub open spec fn classifies_stderr(e: YtDlpEvent, l: Seq<char>) -> bool {
    if is_error_line(l) {
        e matches YtDlpEvent::Error { raw } && raw@ == l
    } else {
        classifies(e, l)
    }
}

/// Classifies one line yt-dlp printed on standard error.
pub fn classify_yt_dlp_stderr_line(line: &str) -> (r: YtDlpEvent)
    ensures
        classifies_stderr(r, line@),
{
    let v = chars_of(line);
    let marker = chars_of("ERROR:");
    proof {
        reveal_strlit("ERROR:");
    }
    if v.len() >= 6 {
        let head = copy_range(&v, 0, 6);
        assert(head@ =~= v@.take(6));
        if chars_eq(&head, &marker) {
            return YtDlpEvent::Error { raw: line.to_owned() };
        }
    }
    classify_yt_dlp_line(line)
}

/// Every character of `s` is an ASCII digit.
pub open spec fn all_digits(s: Seq<char>) -> bool {
    forall|i: int| 0 <= i < s.len() ==> '0' <= #[trigger] s[i] && s[i] <= '9'
}

/// `count_char` adds up over concatenation.
proof fn lemma_count_char_concat(a: Seq<char>, b: Seq<char>, c: char)
    ensures
        count_char(a + b, c) == count_char(a, c) + count_char(b, c),
    decreases b.len(),
{
    if b.len() == 0 {
        assert(a + b =~= a);
    } else {
        lemma_count_char_concat(a, b.drop_last(), c);
        assert((a + b).drop_last() =~= a + b.drop_last());
    }
}

/// Digits hold no `.`.
proof fn lemma_count_dots_of_digits(s: Seq<char>)
    requires
        all_digits(s),
    ensures
        count_char(s, '.') == 0,
    decreases s.len(),
{
    if s.len() > 0 {
        assert(all_digits(s.drop_last()));
        assert('0' <= s[s.len() - 1]);
        lemma_count_dots_of_digits(s.drop_last());
    }
}

/// The run of digits and dots ending at `end` starts at `start` when
/// everything from `start` on is a digit or a dot and the character
/// before `start` is neither.
proof fn lemma_number_run_from(s: Seq<char>, start: int, end: int)
    requires
        0 < start <= end <= s.len(),
        forall|i: int| start <= i < end ==> is_number_char(#[trigger] s[i]),
        !is_number_char(s[start - 1]),
    ensures
        number_run_start(s, end) == start,
    decreases end - start,
{
    if end > start {
        assert(is_number_char(s[end - 1]));
        lemma_number_run_from(s, start, end - 1);
    }
}

/// Law: a progress line `[download]`, spaces, a percentage and `%` (then
/// anything) is classified as progress with exactly that percentage, for
/// every percentage of digits with an optional fraction, leading zeros
/// and values below one included.
pub proof fn lemma_progress_line_percent(
    spaces: Seq<char>,
    int_part: Seq<char>,
    frac: Seq<char>,
    dotted: bool,
    rest: Seq<char>,
)
    requires
        spaces.len() > 0,
        forall|j: int| 0 <= j < spaces.len() ==> #[trigger] spaces[j] == ' ',
        all_digits(int_part),
        all_digits(frac),
        if dotted {
            int_part.len() + frac.len() > 0
        } else {
            int_part.len() > 0
        },
    ensures
        ({
            let d = if dotted {
                int_part + seq!['.'] + frac
            } else {
                int_part
            };
            let l = "[download]"@ + spaces + d + seq!['%'] + rest;
            forall|e: YtDlpEvent|
                #[trigger] classifies(e, l) ==> (e matches YtDlpEvent::Progress { raw, percent }
                    && raw@ == l && (percent matches Some(p) && p@ == d))
        }),
{
    reveal_strlit("[download]");
    let d = if dotted {
        int_part + seq!['.'] + frac
    } else {
        int_part
    };
    let marker = "[download]"@;
    let l = marker + spaces + d + seq!['%'] + rest;
    let start: int = 10 + spaces.len() as int;
    let end: int = start + d.len() as int;
    assert forall|i: int| start <= i < end implies is_number_char(#[trigger] l[i]) by {
        assert(l[i] == d[i - start]);
        if dotted {
            if i - start < int_part.len() {
                assert(d[i - start] == int_part[i - start]);
            } else if i - start > int_part.len() {
                assert(d[i - start] == frac[i - start - int_part.len() - 1]);
            }
        } else {
            assert(d[i - start] == int_part[i - start]);
        }
    }
    assert(l[start - 1] == spaces[spaces.len() - 1]);
    lemma_number_run_from(l, start, end);
    assert(l.subrange(start, end) =~= d);
    let pct = seq!['%'];
    assert(l.subrange(end, end + 1) =~= pct);
    assert forall|i: int| 0 <= i < end implies !#[trigger] occurs_at(l, pct, i) by {
        if occurs_at(l, pct, i) {
            assert(l.subrange(i, i + 1)[0] == l[i]);
            if i < 10 {
                assert(l[i] == marker[i]);
            } else if i < start {
                assert(l[i] == spaces[i - 10]);
            } else {
                assert(is_number_char(l[i]));
            }
        }
    }
    lemma_find_from_first(l, pct, 0, end);
    assert(l.subrange(0, 10) =~= marker);
    lemma_find_from_first(l, marker, 0, 0);
    lemma_count_dots_of_digits(int_part);
    lemma_count_dots_of_digits(frac);
    if dotted {
        lemma_count_char_concat(int_part + seq!['.'], frac, '.');
        lemma_count_char_concat(int_part, seq!['.'], '.');
        assert(seq!['.'].drop_last() =~= Seq::<char>::empty());
        assert(seq!['.'].last() == '.');
        assert(count_char(Seq::<char>::empty(), '.') == 0);
        assert(count_char(seq!['.'], '.') == count_char(seq!['.'].drop_last(), '.') + 1);
        assert(count_char(seq!['.'], '.') == 1);
    }
    assert(is_decimal_text(d));
    assert(line_percent(l) == Some(d));
    assert(is_progress_line(l));
}

} // verus!
