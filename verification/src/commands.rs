//! The decisions and the output text of the `generate`, `download` and
//! `doctor` commands, and the logging level of the command line.
use vstd::prelude::*;
use crate::archive::strs;
use crate::path::{file_name, join, join_path};
use crate::text::{chars_of, decimal, usize_to_string};
use crate::text::{lines, trim};
use crate::types::{
    find_from, is_id_char, is_valid_channel_name, is_valid_video_id, list_channel_name,
    list_entries, list_line_entries, occurs_at, Video,
};
use crate::yt_dlp::ToolProbe;

verus! {

broadcast use vstd::string::group_string_axioms;

/// What the `download` input names.
#[derive(Debug, Clone, Copy, PartialEq, Eq)]
pub enum DownloadInput {
    /// A single `http://` or `https://` URL.
    Url,
    /// A list file on disk.
    ListFile,
}

/// Whether `s` begins with `p`.
pub open spec fn starts_with(s: Seq<char>, p: Seq<char>) -> bool {
    s.len() >= p.len() && s.take(p.len() as int) == p
}

/// Executable `starts_with`.
pub fn has_prefix(s: &str, p: &str) -> (r: bool)
    ensures
        r == starts_with(s@, p@),
{
    let a = chars_of(s);
    let b = chars_of(p);
    if a.len() < b.len() {
        return false;
    }
    let head = crate::text::copy_range(&a, 0, b.len());
    assert(head@ =~= a@.take(b@.len() as int));
    crate::text::chars_eq(&head, &b)
}

/// The message of an input that is neither a URL nor an existing file.
pub open spec fn bad_input_message(input: Seq<char>) -> Seq<char> {
    "Input '"@ + input + "' is neither a valid URL nor an existing file."@
}

/// Reads the `download` input: a URL when it starts with `http://` or
/// `https://`, otherwise a list file when one `exists` at that path.
pub fn classify_download_input(input: &str, exists: bool) -> (r: Result<DownloadInput, String>)
    ensures
        starts_with(input@, "http://"@) || starts_with(input@, "https://"@) ==> r
            == Ok::<DownloadInput, String>(DownloadInput::Url),
        !(starts_with(input@, "http://"@) || starts_with(input@, "https://"@)) && exists ==> r
            == Ok::<DownloadInput, String>(DownloadInput::ListFile),
        !(starts_with(input@, "http://"@) || starts_with(input@, "https://"@)) && !exists ==> (r matches Err(
            m,
        ) && m@ == bad_input_message(input@)),
{
    if has_prefix(input, "http://") || has_prefix(input, "https://") {
        Ok(DownloadInput::Url)
    } else if exists {
        Ok(DownloadInput::ListFile)
    } else {
        let mut m = "Input '".to_owned();
        m.append(input);
        m.append("' is neither a valid URL nor an existing file.");
        Err(m)
    }
}

/// `a - b`, or zero when `b` is larger.
pub open spec fn saturating_sub(a: nat, b: nat) -> nat {
    if a >= b {
        (a - b) as nat
    } else {
        0
    }
}

/// Appends `s` to `v`.
fn push_line(v: &mut Vec<String>, s: String)
    ensures
        strs(final(v)@) == strs(old(v)@).push(s@),
{
    let ghost before = v@;
    v.push(s);
    assert(strs(v@) =~= strs(before).push(s@));
}

/// The statistics printed before a list download.
pub open spec fn statistics_lines(total: nat, already: nat) -> Seq<Seq<char>> {
    let remaining = saturating_sub(total, already);
    let base = seq![
        "📊 Download Statistics:"@,
        "   Total videos: "@ + decimal(total),
        "   Already downloaded: "@ + decimal(already),
        "   Remaining to download: "@ + decimal(remaining),
    ];
    if remaining > 0 {
        base.push(Seq::empty())
    } else {
        base
    }
}

/// `text` followed by the decimal notation of `n`.
fn with_number(text: &str, n: usize) -> (r: String)
    ensures
        r@ == text@ + decimal(n as nat),
{
    let mut s = text.to_owned();
    let d = usize_to_string(n);
    s.append(d.as_str());
    s
}

/// The lines printed before downloading a list of `total` videos of which
/// `already` are in the channel archive.
pub fn download_statistics(total: usize, already: usize) -> (r: Vec<String>)
    ensures
        strs(r@) == statistics_lines(total as nat, already as nat),
{
    let remaining = if total >= already {
        total - already
    } else {
        0
    };
    let mut v: Vec<String> = Vec::new();
    push_line(&mut v, "📊 Download Statistics:".to_owned());
    push_line(&mut v, with_number("   Total videos: ", total));
    push_line(&mut v, with_number("   Already downloaded: ", already));
    push_line(&mut v, with_number("   Remaining to download: ", remaining));
    if remaining > 0 {
        push_line(&mut v, String::new());
    }
    assert(strs(v@) =~= statistics_lines(total as nat, already as nat));
    v
}

/// The lines printed after a list download when new videos arrived.
pub open spec fn session_lines(total: nat, already: nat, after: nat) -> Seq<Seq<char>> {
    let newly = saturating_sub(after, already);
    if newly > 0 {
        seq![
            "✓ Downloaded "@ + decimal(newly) + " new video(s) this session"@,
            "   Progress: "@ + decimal(after) + "/"@ + decimal(total) + " videos complete"@,
        ]
    } else {
        Seq::empty()
    }
}

/// The lines printed after a list download: `after` of the list's ids are
/// now archived, `already` were before.
pub fn session_summary(total: usize, already: usize, after: usize) -> (r: Vec<String>)
    ensures
        strs(r@) == session_lines(total as nat, already as nat, after as nat),
{
    let newly = if after >= already {
        after - already
    } else {
        0
    };
    let mut v: Vec<String> = Vec::new();
    if newly > 0 {
        let mut a = with_number("✓ Downloaded ", newly);
        a.append(" new video(s) this session");
        push_line(&mut v, a);
        let mut b = with_number("   Progress: ", after);
        b.append("/");
        let t = usize_to_string(total);
        b.append(t.as_str());
        b.append(" videos complete");
        push_line(&mut v, b);
    }
    assert(strs(v@) =~= session_lines(total as nat, already as nat, after as nat));
    v
}

/// The file name of a generated list: `<channel>-list-<kind>[-filtered]-<timestamp>.txt`.
pub open spec fn list_file_name(channel: Seq<char>, kind: Seq<char>, filtered: bool, timestamp: Seq<
    char,
>) -> Seq<char> {
    channel + "-list-"@ + kind + (if filtered {
        "-filtered"@
    } else {
        Seq::empty()
    }) + "-"@ + timestamp + ".txt"@
}

/// `<channel>-list-<kind>[-filtered]-<timestamp>.txt`.
fn list_name(channel: &str, kind: &str, filtered: bool, timestamp: &str) -> (r: String)
    ensures
        r@ == list_file_name(channel@, kind@, filtered, timestamp@),
{
    let mut s = channel.to_owned();
    s.append("-list-");
    s.append(kind);
    if filtered {
        s.append("-filtered");
    }
    s.append("-");
    s.append(timestamp);
    s.append(".txt");
    s
}

/// Law: the list files `generate` writes name their channel again. The
/// file name of each path is the list name, and the channel read back from
/// it (the text before the first `-list`) is the channel, for channel names
/// that do not themselves hold `-list`.
pub proof fn lemma_list_files_name_their_channel(
    lists_dir: Seq<char>,
    channel: Seq<char>,
    kind: Seq<char>,
    filtered: bool,
    timestamp: Seq<char>,
)
    requires
        is_valid_channel_name(channel),
        find_from(channel, "-list"@, 0) is None,
        forall|i: int| 0 <= i < kind.len() ==> kind[i] != '/',
        forall|i: int| 0 <= i < timestamp.len() ==> timestamp[i] != '/',
    ensures
        file_name(join(lists_dir, list_file_name(channel, kind, filtered, timestamp))) == Some(
            list_file_name(channel, kind, filtered, timestamp),
        ),
        list_channel_name(list_file_name(channel, kind, filtered, timestamp)) == channel,
{
    reveal_strlit("-list-");
    reveal_strlit("-list");
    reveal_strlit("-filtered");
    reveal_strlit("-");
    reveal_strlit(".txt");
    let name = list_file_name(channel, kind, filtered, timestamp);
    let suffix = (if filtered {
        "-filtered"@
    } else {
        Seq::<char>::empty()
    }) + "-"@ + timestamp + ".txt"@;
    assert(name =~= channel + "-list-"@ + kind + suffix);
    let c = channel.len() as int;
    assert forall|i: int| 0 <= i < name.len() implies name[i] != '/' by {
        if i < c {
            assert(is_id_char(channel[i]));
        } else if i >= c + 6 && i < c + 6 + kind.len() {
            assert(name[i] == kind[i - c - 6]);
        } else if i >= name.len() - 4 - timestamp.len() && i < name.len() - 4 {
            assert(name[i] == timestamp[i - (name.len() - 4 - timestamp.len())]);
        }
    }
    assert(name.len() > 2);
    crate::path::lemma_file_name_of_join(lists_dir, name);
    let pat = "-list"@;
    assert(occurs_at(name, pat, c)) by {
        assert(name.subrange(c, c + 5) =~= pat);
    }
    assert forall|i: int| 0 <= i < c implies !occurs_at(name, pat, i) by {
        if i + 5 <= c {
            crate::types::lemma_find_from_none(channel, pat, 0, i);
            if occurs_at(name, pat, i) {
                assert(channel.subrange(i, i + 5) =~= name.subrange(i, i + 5));
            }
        } else if occurs_at(name, pat, i) {
            assert(name.subrange(i, i + 5)[c - i] == name[c]);
            assert(name[c] == '-');
        }
    }
    crate::types::lemma_find_from_first(name, pat, 0, c);
    assert(name.take(c) =~= channel);
}

/// The title list and URL list `generate` writes in `lists_dir`.
pub fn list_file_paths(lists_dir: &str, channel: &str, filtered: bool, timestamp: &str) -> (r: (
    String,
    String,
))
    ensures
        r.0@ == join(lists_dir@, list_file_name(channel@, "title"@, filtered, timestamp@)),
        r.1@ == join(lists_dir@, list_file_name(channel@, "url"@, filtered, timestamp@)),
{
    let t = list_name(channel, "title", filtered, timestamp);
    let u = list_name(channel, "url", filtered, timestamp);
    (join_path(lists_dir, t.as_str()), join_path(lists_dir, u.as_str()))
}

/// The watch URLs of `videos`, one per line.
pub open spec fn url_lines(videos: Seq<Video>) -> Seq<char>
    decreases videos.len(),
{
    if videos.len() == 0 {
        Seq::empty()
    } else {
        url_lines(videos.drop_last()) + "https://www.youtube.com/watch?v="@ + videos.last().id@
            + "\n"@
    }
}

/// The watch URL of the video with id `id`.
pub open spec fn watch_url(id: Seq<char>) -> Seq<char> {
    "https://www.youtube.com/watch?v="@ + id
}

/// The watch URLs of `videos`, in order.
pub open spec fn watch_urls(videos: Seq<Video>) -> Seq<Seq<char>> {
    videos.map_values(|v: Video| watch_url(v.id@))
}

/// What the list reader gives for the URL list of `videos`: for each video,
/// in order, the entry its watch URL names (its id, no title).
pub open spec fn url_list_entries(videos: Seq<Video>) -> Seq<(Seq<char>, Seq<char>)>
    decreases videos.len(),
{
    if videos.len() == 0 {
        Seq::empty()
    } else {
        url_list_entries(videos.drop_last()) + seq![(Seq::<char>::empty(), videos.last().id@)]
    }
}

/// A watch URL is one line, is its own trim, and reads as its video.
proof fn lemma_watch_url_line(id: Seq<char>)
    requires
        is_valid_video_id(id),
    ensures
        crate::text::no_lf(watch_url(id)),
        crate::text::strip_cr(watch_url(id)) == watch_url(id),
        trim(watch_url(id)) == watch_url(id),
        list_line_entries(watch_url(id)) == seq![(Seq::<char>::empty(), id)],
{
    reveal_strlit("https://www.youtube.com/watch?v=");
    let u = watch_url(id);
    let n = u.len() as int;
    assert(n == 43);
    assert forall|i: int| 0 <= i < n implies u[i] != '\n' by {
        if i >= 32 {
            assert(u[i] == id[i - 32]);
            assert(is_id_char(id[i - 32]));
        }
    }
    assert(u.last() == id[10]);
    assert(is_id_char(id[10]));
    crate::text::lemma_trim_fixed(u);
    crate::types::lemma_watch_url_names_video(id);
}

/// The URL list text is the canonical joining of the watch URLs.
proof fn lemma_url_lines_joined(videos: Seq<Video>)
    requires
        videos.len() > 0,
    ensures
        url_lines(videos) == crate::archive::canonical_body(watch_urls(videos)),
    decreases videos.len(),
{
    reveal_strlit("\n");
    let w = watch_urls(videos);
    let init = videos.drop_last();
    assert(w.last() == watch_url(videos.last().id@));
    assert(w.drop_last() =~= watch_urls(init));
    if videos.len() == 1 {
        assert(url_lines(init) == Seq::<char>::empty());
        assert(url_lines(videos) =~= w[0] + seq!['\n']);
    } else {
        lemma_url_lines_joined(init);
        assert(url_lines(videos) =~= crate::archive::join_lines(w.drop_last()) + seq!['\n']
            + w.last() + seq!['\n']);
    }
}

/// Reading the watch URLs line by line gives the URL list's entries.
proof fn lemma_url_entries(videos: Seq<Video>)
    requires
        forall|k: int| 0 <= k < videos.len() ==> is_valid_video_id(#[trigger] videos[k].id@),
    ensures
        list_entries(watch_urls(videos)) == url_list_entries(videos),
    decreases videos.len(),
{
    if videos.len() > 0 {
        let init = videos.drop_last();
        assert forall|k: int| 0 <= k < init.len() implies is_valid_video_id(
            #[trigger] init[k].id@,
        ) by {
            assert(init[k] == videos[k]);
        }
        lemma_url_entries(init);
        let w = watch_urls(videos);
        assert(w.drop_last() =~= watch_urls(init));
        let id = videos.last().id@;
        assert(is_valid_video_id(videos[videos.len() - 1].id@));
        lemma_watch_url_line(id);
        assert(w.last() == watch_url(id));
    }
}

/// Law: the URL list `generate` writes holds one line per video, and the
/// list reader (`ListFile::read_videos`) reads it back as exactly one entry
/// per video, in order: the video's id, with no title.
pub proof fn lemma_url_list_reads_back(videos: Seq<Video>)
    requires
        forall|k: int| 0 <= k < videos.len() ==> is_valid_video_id(#[trigger] videos[k].id@),
    ensures
        lines(url_lines(videos)).len() == videos.len(),
        list_entries(lines(url_lines(videos))) == url_list_entries(videos),
{
    if videos.len() == 0 {
        let empty = Seq::<char>::empty();
        assert(url_lines(videos) == empty);
        assert(crate::text::split_lf(empty) == seq![empty]);
        assert(lines(empty) =~= Seq::<Seq<char>>::empty());
    } else {
        let w = watch_urls(videos);
        assert forall|i: int| 0 <= i < w.len() implies crate::text::no_lf(#[trigger] w[i])
            && crate::text::strip_cr(w[i]) == w[i] && trim(w[i]) == w[i] by {
            assert(is_valid_video_id(videos[i].id@));
            lemma_watch_url_line(videos[i].id@);
        }
        lemma_url_lines_joined(videos);
        crate::archive::lemma_lines_of_canonical(w);
        lemma_url_entries(videos);
    }
}

/// The contents of the URL list: each video's watch URL on a line of its own.
pub fn url_file_body(videos: &[Video]) -> (r: String)
    ensures
        r@ == url_lines(videos@),
{
    let mut body = String::new();
    for i in 0..videos.len()
        invariant
            body@ == url_lines(videos@.take(i as int)),
    {
        let u = videos[i].url();
        body.append(u.as_str());
        body.append("\n");
        assert(videos@.take(i + 1).drop_last() =~= videos@.take(i as int));
        assert(body@ =~= url_lines(videos@.take(i + 1)));
    }
    assert(videos@.take(videos.len() as int) =~= videos@);
    body
}

/// What `generate` prints once the lists are written.
pub open spec fn generate_lines(filter: Option<Seq<char>>, count: nat, title_path: Seq<char>, url_path: Seq<
    char,
>) -> Seq<Seq<char>> {
    seq![
        match filter {
            Some(f) => "✓ Filter '"@ + f + "' applied - "@ + decimal(count) + " videos"@,
            None => "✓ "@ + decimal(count) + " videos"@,
        },
        "  Title: "@ + title_path,
        "  URLs: "@ + url_path,
    ]
}

/// The summary `generate` prints.
pub fn generate_summary(filter: Option<&str>, count: usize, title_path: &str, url_path: &str) -> (r:
    Vec<String>)
    ensures
        strs(r@) == generate_lines(
            match filter {
                Some(f) => Some(f@),
                None => None,
            },
            count as nat,
            title_path@,
            url_path@,
        ),
{
    let mut v: Vec<String> = Vec::new();
    let first = match filter {
        Some(f) => {
            let mut s = "✓ Filter '".to_owned();
            s.append(f);
            s.append("' applied - ");
            let d = usize_to_string(count);
            s.append(d.as_str());
            s.append(" videos");
            s
        },
        None => {
            let mut s = with_number("✓ ", count);
            s.append(" videos");
            s
        },
    };
    push_line(&mut v, first);
    let mut t = "  Title: ".to_owned();
    t.append(title_path);
    push_line(&mut v, t);
    let mut u = "  URLs: ".to_owned();
    u.append(url_path);
    push_line(&mut v, u);
    assert(strs(v@) =~= generate_lines(
        match filter {
            Some(f) => Some(f@),
            None => None,
        },
        count as nat,
        title_path@,
        url_path@,
    ));
    v
}

/// How much a doctor check matters.
#[derive(Debug, Clone, Copy, PartialEq, Eq)]
pub enum Severity {
    /// Required for all yt-dlp workflows.
    Required,
    /// Required for `download` (EJS / Deno runtime).
    RequiredForDownload,
}

/// `s` padded with spaces to `width` characters.
pub open spec fn pad(s: Seq<char>, width: nat) -> Seq<char> {
    if s.len() >= width {
        s
    } else {
        s + Seq::new((width - s.len()) as nat, |i: int| ' ')
    }
}

/// Appends `s` padded with spaces to `width` characters.
fn append_padded(out: &mut String, s: &str, width: usize)
    ensures
        final(out)@ == old(out)@ + pad(s@, width as nat),
{
    out.append(s);
    let n = chars_of(s).len();
    let mut k = n;
    let ghost start = old(out)@;
    while k < width
        invariant
            n == s@.len(),
            n <= k,
            k == n || k <= width,
            out@ == start + s@ + Seq::new((k - n) as nat, |i: int| ' '),
        decreases width - k,
    {
        let ghost before = out@;
        out.append(" ");
        proof {
            reveal_strlit(" ");
        }
        k = k + 1;
        assert(out@ =~= start + s@ + Seq::new((k - n) as nat, |i: int| ' '));
    }
    if n >= width {
        assert(k == n);
        assert(out@ =~= old(out)@ + pad(s@, width as nat));
    } else {
        assert(k == width);
        let ghost sp = Seq::new((k - n) as nat, |i: int| ' ');
        assert(pad(s@, width as nat) =~= s@ + sp);
        assert(out@ =~= old(out)@ + pad(s@, width as nat));
    }
}

/// The doctor's line for one probe: name, status, version, path and
/// severity note; a failing check adds its installation hint.
pub open spec fn doctor_lines(probe: ToolProbe, severity: Severity, hint: Seq<char>) -> Seq<Seq<char>> {
    let status = if probe.ok {
        "ok"@
    } else {
        "FAIL"@
    };
    let version = match probe.version {
        Some(v) => v@,
        None => "-"@,
    };
    let path = match probe.path {
        Some(p) => p@,
        None => "-"@,
    };
    let note = match severity {
        Severity::Required => Seq::empty(),
        Severity::RequiredForDownload => "  (needed for download)"@,
    };
    let line = "  "@ + pad(probe.name@, 8) + " "@ + pad(status, 4) + "  "@ + version + "  ("@ + path
        + ")"@ + note;
    if probe.ok {
        seq![line]
    } else {
        seq![line, "           "@ + hint]
    }
}

/// The lines the doctor prints for one check.
pub fn doctor_check_lines(probe: &ToolProbe, severity: Severity, hint: &str) -> (r: Vec<String>)
    ensures
        strs(r@) == doctor_lines(*probe, severity, hint@),
{
    let mut line = "  ".to_owned();
    append_padded(&mut line, probe.name.as_str(), 8);
    line.append(" ");
    let status = if probe.ok {
        "ok"
    } else {
        "FAIL"
    };
    append_padded(&mut line, status, 4);
    line.append("  ");
    match &probe.version {
        Some(v) => line.append(v.as_str()),
        None => line.append("-"),
    }
    line.append("  (");
    match &probe.path {
        Some(p) => line.append(p.as_str()),
        None => line.append("-"),
    }
    line.append(")");
    match severity {
        Severity::Required => {},
        Severity::RequiredForDownload => line.append("  (needed for download)"),
    }
    let mut v: Vec<String> = Vec::new();
    push_line(&mut v, line);
    if !probe.ok {
        let mut h = "           ".to_owned();
        h.append(hint);
        push_line(&mut v, h);
    }
    assert(strs(v@) =~= doctor_lines(*probe, severity, hint@));
    v
}

/// Whether any check failed.
pub fn doctor_failed(probes: &[ToolProbe]) -> (r: bool)
    ensures
        r == exists|i: int| 0 <= i < probes.len() && !(#[trigger] probes@[i]).ok,
{
    for i in 0..probes.len()
        invariant
            forall|j: int| 0 <= j < i ==> (#[trigger] probes@[j]).ok,
    {
        if !probes[i].ok {
            return true;
        }
    }
    false
}

/// The logging level for `-v` given `verbose` times.
pub open spec fn level_for(verbose: u8) -> Seq<char> {
    if verbose == 0 {
        "off"@
    } else if verbose == 1 {
        "info"@
    } else if verbose == 2 {
        "debug"@
    } else {
        "trace"@
    }
}

/// The logging level: off, info, debug, then trace.
pub fn log_level(verbose: u8) -> (r: &'static str)
    ensures
        r@ == level_for(verbose),
{
    match verbose {
        0 => "off",
        1 => "info",
        2 => "debug",
        _ => "trace",
    }
}

} // verus!
