//! Reading what yt-dlp and the other tools print: channel lists, version
//! banners, and the outcome of probing a tool.
use vstd::prelude::*;
use crate::text::{
    byte_boundary_from_end, chars_of, copy_range, is_whitespace, is_ws, lines, lines_of,
    string_of, trim, trim_chars, trim_start, utf8_len, utf8_len_at_least, views,
};
use crate::types::{
    find_chars, find_from, trailing_id, video_is, Channel, Video, VideoId,
};

verus! {

broadcast use vstd::string::group_string_axioms;

/// `s` without one trailing `-`.
pub open spec fn strip_one_dash(s: Seq<char>) -> Seq<char> {
    if s.len() > 0 && s.last() == '-' {
        s.drop_last()
    } else {
        s
    }
}

/// The (title, id) a trimmed `title-id` line of a channel listing yields:
/// lines of at least twelve bytes whose last eleven characters form an id,
/// the title being the rest without one trailing `-`.
pub open spec fn channel_list_entry(l: Seq<char>) -> Option<(Seq<char>, Seq<char>)> {
    if utf8_len(l) >= 12 {
        match trailing_id(l) {
            Some(id) => Some((strip_one_dash(l.take(l.len() - 11)), id)),
            None => None,
        }
    } else {
        None
    }
}

/// The entries of all lines (each trimmed), in order.
pub open spec fn channel_list_entries(ls: Seq<Seq<char>>) -> Seq<(Seq<char>, Seq<char>)>
    decreases ls.len(),
{
    if ls.len() == 0 {
        Seq::empty()
    } else {
        let rest = channel_list_entries(ls.drop_last());
        match channel_list_entry(trim(ls.last())) {
            Some(e) => rest.push(e),
            None => rest,
        }
    }
}

/// A trimmed line long enough to be split can be split eleven bytes before
/// its end without cutting a character.
pub open spec fn channel_list_line_splittable(l: Seq<char>) -> bool {
    utf8_len(l) >= 12 ==> (trailing_id(l) is Some || byte_boundary_from_end(l, 11))
}

/// Whether every line of `stdout` can be read by `parse_channel_list_output`
/// without cutting a character.
pub fn channel_list_splittable(stdout: &str) -> (r: bool)
    ensures
        r == forall|i: int|
            0 <= i < lines(stdout@).len() ==> channel_list_line_splittable(
                #[trigger] trim(lines(stdout@)[i]),
            ),
{
    let chars = chars_of(stdout);
    let ls = lines_of(&chars);
    let ghost all = lines(stdout@);
    for k in 0..ls.len()
        invariant
            views(ls@) == all,
            all == lines(stdout@),
            forall|i: int| 0 <= i < k ==> channel_list_line_splittable(#[trigger] trim(all[i])),
    {
        assert(views(ls@)[k as int] == ls@[k as int]@);
        let line = trim_chars(&ls[k]);
        if utf8_len_at_least(&line, 12) {
            let n = line.len();
            let id_ok = n >= 11 && crate::types::all_id_chars_in(&line, n - 11, n);
            proof {
                if n >= 11 {
                    assert(line@.subrange(n - 11, n as int) =~= line@.skip(n - 11));
                }
            }
            if !id_ok && !crate::text::is_byte_boundary_from_end(&line, 11) {
                return false;
            }
        }
    }
    true
}

/// Reads yt-dlp's `%(title)s-%(id)s` listing into videos of `channel`;
/// blank lines, short lines and lines without a valid trailing id are skipped.
pub fn parse_channel_list_output(stdout: &str, channel: &Channel) -> (r: Vec<Video>)
    requires
        forall|i: int|
            0 <= i < lines(stdout@).len() ==> channel_list_line_splittable(
                #[trigger] trim(lines(stdout@)[i]),
            ),
    ensures
        r.len() == channel_list_entries(lines(stdout@)).len(),
        forall|i: int|
            0 <= i < r.len() ==> video_is(
                #[trigger] r@[i],
                channel_list_entries(lines(stdout@))[i],
                channel.name@,
            ),
{
    let chars = chars_of(stdout);
    let ls = lines_of(&chars);
    let ghost all = lines(stdout@);
    let mut videos: Vec<Video> = Vec::new();
    for k in 0..ls.len()
        invariant
            views(ls@) == all,
            all == lines(stdout@),
            videos.len() == channel_list_entries(all.take(k as int)).len(),
            forall|i: int|
                0 <= i < videos.len() ==> video_is(
                    #[trigger] videos@[i],
                    channel_list_entries(all.take(k as int))[i],
                    channel.name@,
                ),
    {
        assert(views(ls@)[k as int] == ls@[k as int]@);
        let line = trim_chars(&ls[k]);
        let ghost l = line@;
        assert(all.take(k + 1).drop_last() =~= all.take(k as int));
        assert(all.take(k + 1).last() == all[k as int]);
        if utf8_len_at_least(&line, 12) {
            let n = line.len();
            if n >= 11 && crate::types::all_id_chars_in(&line, n - 11, n) {
                assert(line@.subrange(n - 11, n as int) =~= line@.skip(n - 11));
                let id_text = string_of(&copy_range(&line, n - 11, n));
                let mut end = n - 11;
                if end > 0 && line[end - 1] == '-' {
                    end = end - 1;
                    assert(line@.take(n - 11).drop_last() =~= line@.subrange(0, end as int));
                } else {
                    assert(line@.take(n - 11) =~= line@.subrange(0, end as int));
                }
                let title = string_of(&copy_range(&line, 0, end));
                proof {
                    crate::types::lemma_valid_id_text(id_text@);
                }
                match VideoId::new(id_text.as_str()) {
                    Ok(id) => {
                        videos.push(Video::new(id, title.as_str(), channel.copy()));
                    },
                    Err(_) => {},
                }
            } else {
                proof {
                    if n >= 11 {
                        assert(line@.subrange(n - 11, n as int) =~= line@.skip(n - 11));
                    }
                }
            }
        }
    }
    assert(all.take(ls.len() as int) =~= all);
    videos
}

/// Law: the `title-id` line of a video, as yt-dlp prints it and
/// `Video::to_title_id_string` writes it, reads back as that title and id
/// (for titles without line feeds or leading whitespace, which trimming
/// would change).
pub proof fn lemma_title_id_line_round_trip(title: Seq<char>, id: Seq<char>)
    requires
        crate::types::is_valid_video_id(id),
        crate::text::no_lf(title),
        title.len() == 0 || !is_ws(title[0]),
    ensures
        channel_list_entries(lines(title + "-"@ + id + "\n"@)) == seq![(title, id)],
{
    reveal_strlit("-");
    reveal_strlit("\n");
    let s = title + "-"@ + id;
    assert(crate::text::no_lf(s)) by {
        assert forall|i: int| 0 <= i < s.len() implies s[i] != '\n' by {
            if i >= title.len() + 1 {
                assert(s[i] == id[i - title.len() - 1]);
                assert(crate::types::is_id_char(id[i - title.len() - 1]));
            }
        }
    }
    let text = s + "\n"@;
    assert(text =~= s + seq!['\n'] + Seq::<char>::empty());
    crate::text::lemma_split_lf_concat(s, Seq::<char>::empty());
    crate::text::lemma_split_lf_single(s);
    assert(split_lf_of(text) =~= seq![s, Seq::<char>::empty()]);
    assert(crate::types::is_id_char(s.last()));
    assert(lines(text) =~= seq![s]);
    assert(!is_ws(s[0])) by {
        if title.len() == 0 {
            assert(s[0] == '-');
        } else {
            assert(s[0] == title[0]);
        }
    }
    crate::text::lemma_trim_fixed(s);
    crate::text::lemma_utf8_len_at_least_chars(s);
    assert(s.skip(s.len() - 11) =~= id);
    assert(s.take(s.len() - 11) =~= title + "-"@);
    assert(strip_one_dash(title + "-"@) =~= title);
    assert(seq![s].drop_last() =~= Seq::<Seq<char>>::empty());
    assert(trim(seq![s].last()) == s);
    assert(utf8_len(s) >= 12);
    assert(crate::types::all_id_chars(s.skip(s.len() - 11)));
    assert(trailing_id(s) == Some(id));
    assert(channel_list_entry(s) == Some((title, id)));
    assert(channel_list_entries(seq![s].drop_last()) =~= Seq::<(Seq<char>, Seq<char>)>::empty());
    assert(channel_list_entries(seq![s]) =~= seq![(title, id)]);
}

/// The pieces `lines` is built from.
spec fn split_lf_of(s: Seq<char>) -> Seq<Seq<char>> {
    crate::text::split_lf(s)
}

/// The first line of `ls` that is not blank, trimmed.
pub open spec fn first_nonblank(ls: Seq<Seq<char>>) -> Option<Seq<char>>
    decreases ls.len(),
{
    if ls.len() == 0 {
        None
    } else if trim(ls[0]).len() > 0 {
        Some(trim(ls[0]))
    } else {
        first_nonblank(ls.drop_first())
    }
}

/// The longest prefix of `s` without whitespace.
pub open spec fn until_ws(s: Seq<char>) -> Seq<char>
    decreases s.len(),
{
    if s.len() == 0 || is_ws(s[0]) {
        Seq::empty()
    } else {
        seq![s[0]] + until_ws(s.drop_first())
    }
}

/// The first whitespace-separated token of `s`, or `s` itself when it has none.
pub open spec fn first_token_or_all(s: Seq<char>) -> Seq<char> {
    let t = until_ws(trim_start(s));
    if t.len() == 0 {
        s
    } else {
        t
    }
}

/// `s` without its trailing commas.
pub open spec fn trim_end_commas(s: Seq<char>) -> Seq<char>
    decreases s.len(),
{
    if s.len() > 0 && s.last() == ',' {
        trim_end_commas(s.drop_last())
    } else {
        s
    }
}

/// The compact version a banner line shows: the token after
/// `ffmpeg version `, else the token after the first space without trailing
/// commas, else the whole line.
pub open spec fn version_token(line: Seq<char>) -> Seq<char> {
    let ff = "ffmpeg version "@;
    if line.len() >= ff.len() && line.take(ff.len() as int) == ff {
        first_token_or_all(line.skip(ff.len() as int))
    } else {
        match find_from(line, seq![' '], 0) {
            Some(i) => trim_end_commas(first_token_or_all(line.skip(i + 1))),
            None => line,
        }
    }
}

/// The version a tool printed: taken from its first non-blank line.
pub open spec fn version_line(text: Seq<char>) -> Option<Seq<char>> {
    match first_nonblank(lines(text)) {
        Some(l) => Some(version_token(l)),
        None => None,
    }
}

/// `first_nonblank` is absent exactly when every line is blank.
proof fn lemma_first_nonblank_none(ls: Seq<Seq<char>>)
    ensures
        first_nonblank(ls) is None <==> forall|i: int|
            0 <= i < ls.len() ==> #[trigger] trim(ls[i]).len() == 0,
    decreases ls.len(),
{
    if ls.len() > 0 {
        lemma_first_nonblank_none(ls.drop_first());
        assert forall|i: int| 0 <= i < ls.drop_first().len() implies ls.drop_first()[i]
            == ls[i + 1] by {}
        if trim(ls[0]).len() == 0 && first_nonblank(ls.drop_first()) is None {
            assert forall|i: int| 0 <= i < ls.len() implies #[trigger] trim(ls[i]).len()
                == 0 by {
                if i > 0 {
                    assert(ls[i] == ls.drop_first()[i - 1]);
                }
            }
        }
        if first_nonblank(ls.drop_first()) is Some {
            let j = choose|j: int|
                0 <= j < ls.drop_first().len() && trim(ls.drop_first()[j]).len() != 0;
            assert(trim(ls[j + 1]).len() != 0);
        }
    }
}

/// Lines that trim alike over the first lines of `a` share its first
/// non-blank line, once `a` has one.
proof fn lemma_first_nonblank_prefix(a: Seq<Seq<char>>, b: Seq<Seq<char>>)
    requires
        a.len() <= b.len(),
        forall|i: int| 0 <= i < a.len() ==> trim(#[trigger] a[i]) == trim(b[i]),
        first_nonblank(a) is Some,
    ensures
        first_nonblank(b) == first_nonblank(a),
    decreases a.len(),
{
    assert(trim(a[0]) == trim(b[0]));
    if trim(a[0]).len() == 0 {
        assert forall|i: int| 0 <= i < a.drop_first().len() implies trim(
            #[trigger] a.drop_first()[i],
        ) == trim(b.drop_first()[i]) by {
            assert(a.drop_first()[i] == a[i + 1]);
            assert(b.drop_first()[i] == b[i + 1]);
        }
        lemma_first_nonblank_prefix(a.drop_first(), b.drop_first());
    }
}

/// Law: a tool's version is read from its first non-blank line alone. It is
/// absent exactly when every line is blank, and once a non-blank line has
/// been read, text appended after a line feed leaves it unchanged.
pub proof fn lemma_version_reads_first_nonblank_line(text: Seq<char>, more: Seq<char>)
    ensures
        version_line(text) is None <==> forall|i: int|
            0 <= i < lines(text).len() ==> #[trigger] trim(lines(text)[i]).len() == 0,
        version_line(text) is Some ==> version_line(text + "\n"@ + more) == version_line(text),
{
    lemma_first_nonblank_none(lines(text));
    if version_line(text) is Some {
        reveal_strlit("\n");
        let t2 = text + "\n"@ + more;
        assert(t2 =~= text + seq!['\n'] + more);
        crate::text::lemma_split_lf_concat(text, more);
        crate::text::lemma_split_lf_nonempty(text);
        crate::text::lemma_split_lf_nonempty(more);
        let p = crate::text::split_lf(text);
        let q = crate::text::split_lf(t2);
        let a = lines(text);
        let b = lines(t2);
        assert(q == p + crate::text::split_lf(more));
        assert forall|i: int| 0 <= i < a.len() implies trim(#[trigger] a[i]) == trim(b[i]) by {
            assert(q[i] == p[i]);
            assert(b[i] == crate::text::strip_cr(q[i]));
            crate::text::lemma_trim_strip_cr(p[i]);
            if i < p.len() - 1 {
                assert(a[i] == crate::text::strip_cr(p[i]));
            } else {
                assert(a[i] == p[i]);
            }
        }
        lemma_first_nonblank_prefix(a, b);
    }
}

/// Executable `first_token_or_all` on `v[from..]`.
fn first_token_or_all_from(v: &[char], from: usize) -> (r: Vec<char>)
    requires
        from <= v.len(),
    ensures
        r@ == first_token_or_all(v@.skip(from as int)),
{
    let n = v.len();
    let mut i = from;
    assert(v@.skip(from as int).skip(0) =~= v@.skip(from as int));
    while i < n && is_whitespace(v[i])
        invariant
            from <= i <= n == v.len(),
            trim_start(v@.skip(from as int)) == trim_start(v@.skip(i as int)),
        decreases n - i,
    {
        assert(v@.skip(i as int).drop_first() =~= v@.skip(i + 1));
        i = i + 1;
    }
    if i < n {
        assert(trim_start(v@.skip(i as int)) == v@.skip(i as int));
    } else {
        assert(v@.skip(i as int) =~= Seq::<char>::empty());
    }
    let start = i;
    let mut j = i;
    while j < n && !is_whitespace(v[j])
        invariant
            start <= j <= n == v.len(),
            until_ws(v@.skip(start as int)) =~= v@.subrange(start as int, j as int) + until_ws(
                v@.skip(j as int),
            ),
        decreases n - j,
    {
        assert(v@.skip(j as int).drop_first() =~= v@.skip(j + 1));
        assert(v@.subrange(start as int, j + 1) =~= v@.subrange(start as int, j as int) + seq![
            v@[j as int],
        ]);
        j = j + 1;
    }
    assert(until_ws(v@.skip(j as int)) =~= Seq::<char>::empty());
    if j == start {
        copy_range(v, from, n)
    } else {
        copy_range(v, start, j)
    }
}

/// Executable `trim_end_commas`.
fn trim_end_commas_chars(v: &Vec<char>) -> (r: Vec<char>)
    ensures
        r@ == trim_end_commas(v@),
{
    let mut j = v.len();
    assert(v@.take(j as int) =~= v@);
    while j > 0 && v[j - 1] == ','
        invariant
            j <= v.len(),
            trim_end_commas(v@) == trim_end_commas(v@.take(j as int)),
        decreases j,
    {
        assert(v@.take(j as int).drop_last() =~= v@.take(j - 1));
        j = j - 1;
    }
    assert(v@.take(j as int) =~= v@.subrange(0, j as int));
    copy_range(v, 0, j)
}

/// Executable `version_token`.
fn version_token_of(line: &Vec<char>) -> (r: Vec<char>)
    ensures
        r@ == version_token(line@),
{
    let ff = chars_of("ffmpeg version ");
    let m = ff.len();
    if line.len() >= m {
        let head = copy_range(line, 0, m);
        if crate::text::chars_eq(&head, &ff) {
            assert(line@.take(m as int) =~= head@);
            return first_token_or_all_from(line, m);
        }
        assert(line@.take(m as int) =~= head@);
    }
    let space = vec![' '];
    assert(space@ =~= seq![' ']);
    match find_chars(line, &space) {
        Some(i) => {
            let tok = first_token_or_all_from(line, i + 1);
            trim_end_commas_chars(&tok)
        },
        None => copy_range(line, 0, line.len()),
    }
}

/// The version a tool printed, read from its first non-blank line.
pub fn extract_version_line(text: &str) -> (r: Option<String>)
    ensures
        match r {
            Some(v) => version_line(text@) == Some(v@),
            None => version_line(text@) is None,
        },
{
    let chars = chars_of(text);
    let ls = lines_of(&chars);
    let ghost all = lines(text@);
    let mut k: usize = 0;
    assert(all.skip(0) =~= all);
    while k < ls.len()
        invariant
            views(ls@) == all,
            all == lines(text@),
            k <= ls.len(),
            first_nonblank(all) == first_nonblank(all.skip(k as int)),
        decreases ls.len() - k,
    {
        assert(views(ls@)[k as int] == ls@[k as int]@);
        let line = trim_chars(&ls[k]);
        assert(all.skip(k as int)[0] == all[k as int]);
        if line.len() > 0 {
            let v = version_token_of(&line);
            return Some(string_of(&v));
        }
        assert(all.skip(k as int).drop_first() =~= all.skip(k + 1));
        k = k + 1;
    }
    assert(all.skip(k as int) =~= Seq::<Seq<char>>::empty());
    None
}


/// What probing a tool showed.
#[derive(Debug, Clone, PartialEq, Eq)]
pub struct ToolProbe {
    pub name: String,
    pub ok: bool,
    pub version: Option<String>,
    pub path: Option<String>,
    pub error: Option<String>,
}

/// What happened when the tool was looked up on `PATH` and run with its
/// version arguments.
pub enum ProbeOutcome {
    /// The tool is not on `PATH`.
    NotOnPath,
    /// The tool at `path` ran and exited.
    Exited { path: String, success: bool, code: Option<i32>, stdout: String, stderr: String },
    /// The tool at `path` could not be started.
    SpawnFailed { path: String, error: String },
}

/// The text of an optional string.
pub open spec fn opt_view(o: Option<String>) -> Option<Seq<char>> {
    match o {
        Some(s) => Some(s@),
        None => None,
    }
}

/// The version a successful run reports: from standard output, else from standard error.
pub open spec fn probe_version(stdout: Seq<char>, stderr: Seq<char>) -> Option<Seq<char>> {
    match version_line(stdout) {
        Some(v) => Some(v),
        None => version_line(stderr),
    }
}

/// Why a run that exited unsuccessfully failed: its trimmed standard error,
/// or the exit status when that is empty.
pub open spec fn exit_failure(name: Seq<char>, code: Option<i32>, stderr: Seq<char>) -> Seq<char> {
    if trim(stderr).len() == 0 {
        name + " exited with status "@ + crate::process::debug_code(code)
    } else {
        trim(stderr)
    }
}

impl ToolProbe {
    /// The probe of the tool `name` given what looking it up and running it showed.
    pub fn from_outcome(name: &str, outcome: ProbeOutcome) -> (r: ToolProbe)
        ensures
            r.name@ == name@,
            match outcome {
                ProbeOutcome::NotOnPath => !r.ok && r.version is None && r.path is None
                    && opt_view(r.error) == Some(name@ + " not found on PATH"@),
                ProbeOutcome::Exited { path, success, code, stdout, stderr } => opt_view(r.path)
                    == Some(path@) && r.ok == success && if success {
                    opt_view(r.version) == probe_version(stdout@, stderr@) && r.error is None
                } else {
                    r.version is None && opt_view(r.error) == Some(
                        exit_failure(name@, code, stderr@),
                    )
                },
                ProbeOutcome::SpawnFailed { path, error } => !r.ok && r.version is None
                    && opt_view(r.path) == Some(path@) && opt_view(r.error) == Some(error@),
            },
    {
        match outcome {
            ProbeOutcome::NotOnPath => {
                let mut e = name.to_owned();
                e.append(" not found on PATH");
                ToolProbe {
                    name: name.to_owned(),
                    ok: false,
                    version: None,
                    path: None,
                    error: Some(e),
                }
            },
            ProbeOutcome::Exited { path, success, code, stdout, stderr } => {
                if success {
                    let version = match extract_version_line(stdout.as_str()) {
                        Some(v) => Some(v),
                        None => extract_version_line(stderr.as_str()),
                    };
                    ToolProbe { name: name.to_owned(), ok: true, version, path: Some(path), error: None }
                } else {
                    let t = trim_chars(&chars_of(stderr.as_str()));
                    let e = if t.len() == 0 {
                        let mut e = name.to_owned();
                        e.append(" exited with status ");
                        match code {
                            Some(c) => {
                                e.append("Some(");
                                let n = crate::text::i32_to_string(c);
                                e.append(n.as_str());
                                e.append(")");
                            },
                            None => {
                                e.append("None");
                            },
                        }
                        e
                    } else {
                        string_of(&t)
                    };
                    ToolProbe {
                        name: name.to_owned(),
                        ok: false,
                        version: None,
                        path: Some(path),
                        error: Some(e),
                    }
                }
            },
            ProbeOutcome::SpawnFailed { path, error } => ToolProbe {
                name: name.to_owned(),
                ok: false,
                version: None,
                path: Some(path),
                error: Some(error),
            },
        }
    }
}

/// The message of a missing tool: `<name> not found. Please install it
/// first.` followed by ` (<error>)` when the probe recorded one.
pub open spec fn missing_tool_message(name: Seq<char>, error: Option<Seq<char>>) -> Seq<char> {
    name + " not found. Please install it first."@ + match error {
        Some(e) => " ("@ + e + ")"@,
        None => Seq::empty(),
    }
}

/// Whether a probed tool can be used: success exactly when the probe is ok.
pub fn check_probe(probe: &ToolProbe) -> (r: Result<(), String>)
    ensures
        r is Ok <==> probe.ok,
        r matches Err(m) ==> m@ == missing_tool_message(probe.name@, opt_view(probe.error)),
{
    if probe.ok {
        Ok(())
    } else {
        let mut m = probe.name.clone();
        m.append(" not found. Please install it first.");
        match &probe.error {
            Some(e) => {
                m.append(" (");
                m.append(e.as_str());
                m.append(")");
            },
            None => {},
        }
        Err(m)
    }
}

} // verus!
