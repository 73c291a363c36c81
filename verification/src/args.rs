//! The yt-dlp command lines the tool runs.
use vstd::prelude::*;
use crate::archive::strs;
use crate::process::RunOutcome;
use crate::types::Video;

verus! {

broadcast use vstd::string::group_string_axioms;

/// Appends `s` to `v`.
fn push_str(v: &mut Vec<String>, s: &str)
    ensures
        strs(final(v)@) == strs(old(v)@).push(s@),
{
    let ghost before = v@;
    v.push(s.to_owned());
    assert(strs(v@) =~= strs(before).push(s@));
}

/// Arguments of a media download (URL or list variant, before the URL or
/// `-a <list>`): archive bookkeeping, metadata embedding, one progress line
/// per update, and Deno as the JavaScript runtime.
pub open spec fn download_args_spec(deno: Seq<char>, archive: Seq<char>, out: Seq<char>) -> Seq<
    Seq<char>,
> {
    seq![
        "-cw"@,
        "-o"@,
        "%(title)s-%(id)s.%(ext)s"@,
        "--embed-thumbnail"@,
        "--write-description"@,
        "--embed-metadata"@,
        "--no-colors"@,
        "--newline"@,
        "--remote-components"@,
        "ejs:npm"@,
        "--js-runtimes"@,
        "deno:"@ + deno,
        "--download-archive"@,
        archive,
        "-P"@,
        out,
    ]
}

/// Law: in a media download's arguments every `--download-archive` is
/// followed by the archive file, every `-P` by the output directory, and
/// every `-o` by the `%(title)s-%(id)s.%(ext)s` name template, and each of
/// these flags is given (for archive and output paths that are not
/// themselves one of these flags).
pub proof fn lemma_download_args_pair_flags_with_values(
    deno: Seq<char>,
    archive: Seq<char>,
    out: Seq<char>,
)
    requires
        archive != "--download-archive"@,
        archive != "-P"@,
        archive != "-o"@,
        out != "--download-archive"@,
        out != "-P"@,
        out != "-o"@,
    ensures
        ({
            let a = download_args_spec(deno, archive, out);
            &&& a.contains("--download-archive"@)
            &&& a.contains("-P"@)
            &&& a.contains("-o"@)
            &&& forall|i: int|
                0 <= i < a.len() && #[trigger] a[i] == "--download-archive"@ ==> i + 1 < a.len()
                    && a[i + 1] == archive
            &&& forall|i: int|
                0 <= i < a.len() && #[trigger] a[i] == "-P"@ ==> i + 1 < a.len() && a[i + 1] == out
            &&& forall|i: int|
                0 <= i < a.len() && #[trigger] a[i] == "-o"@ ==> i + 1 < a.len() && a[i + 1]
                    == "%(title)s-%(id)s.%(ext)s"@
        }),
{
    reveal_strlit("-cw");
    reveal_strlit("-o");
    reveal_strlit("%(title)s-%(id)s.%(ext)s");
    reveal_strlit("--embed-thumbnail");
    reveal_strlit("--write-description");
    reveal_strlit("--embed-metadata");
    reveal_strlit("--no-colors");
    reveal_strlit("--newline");
    reveal_strlit("--remote-components");
    reveal_strlit("ejs:npm");
    reveal_strlit("--js-runtimes");
    reveal_strlit("deno:");
    reveal_strlit("--download-archive");
    reveal_strlit("-P");
    let a = download_args_spec(deno, archive, out);
    assert(a[12] == "--download-archive"@);
    assert(a[14] == "-P"@);
    assert(a[1] == "-o"@);
    let d = "deno:"@ + deno;
    assert(d[0] == 'd');
    assert forall|i: int| 0 <= i < a.len() && #[trigger] a[i] == "--download-archive"@ implies i
        + 1 < a.len() && a[i + 1] == archive by {
        if i != 12 && i != 13 && i != 15 {
            if i == 11 {
                assert(a[i][0] == 'd');
            } else {
                assert(a[i][0] != '-' || a[i][1] != '-' || a[i].len() != 18 || a[i][2] != 'd');
            }
        }
    }
    assert forall|i: int| 0 <= i < a.len() && #[trigger] a[i] == "-P"@ implies i + 1 < a.len()
        && a[i + 1] == out by {
        if i != 14 && i != 13 && i != 15 {
            if i == 11 {
                assert(a[i][0] == 'd');
            } else {
                assert(a[i].len() != 2 || a[i][1] != 'P');
            }
        }
    }
    assert forall|i: int| 0 <= i < a.len() && #[trigger] a[i] == "-o"@ implies i + 1 < a.len()
        && a[i + 1] == "%(title)s-%(id)s.%(ext)s"@ by {
        if i != 1 && i != 13 && i != 15 {
            if i == 11 {
                assert(a[i][0] == 'd');
            } else {
                assert(a[i].len() != 2 || a[i][1] != 'o');
            }
        }
    }
}

/// The shared arguments of a media download.
pub fn download_args(deno_path: &str, archive_file: &str, output_dir: &str) -> (r: Vec<String>)
    ensures
        strs(r@) == download_args_spec(deno_path@, archive_file@, output_dir@),
{
    let mut v: Vec<String> = Vec::new();
    push_str(&mut v, "-cw");
    push_str(&mut v, "-o");
    push_str(&mut v, "%(title)s-%(id)s.%(ext)s");
    push_str(&mut v, "--embed-thumbnail");
    push_str(&mut v, "--write-description");
    push_str(&mut v, "--embed-metadata");
    push_str(&mut v, "--no-colors");
    push_str(&mut v, "--newline");
    push_str(&mut v, "--remote-components");
    push_str(&mut v, "ejs:npm");
    push_str(&mut v, "--js-runtimes");
    let mut js = "deno:".to_owned();
    js.append(deno_path);
    push_str(&mut v, js.as_str());
    push_str(&mut v, "--download-archive");
    push_str(&mut v, archive_file);
    push_str(&mut v, "-P");
    push_str(&mut v, output_dir);
    assert(strs(v@) =~= download_args_spec(deno_path@, archive_file@, output_dir@));
    v
}

/// Arguments that fetch the comments of every video in a list file.
pub open spec fn comments_from_file_spec(list_file: Seq<char>, out: Seq<char>) -> Seq<Seq<char>> {
    seq![
        "-o"@,
        "%(id)s.comments.json"@,
        "-P"@,
        out,
        "-a"@,
        list_file,
        "--write-comments"@,
        "--skip-download"@,
        "--no-colors"@,
    ]
}

/// Arguments that fetch the comments of every video in `list_file` into `output_dir`.
pub fn comments_from_file_args(list_file: &str, output_dir: &str) -> (r: Vec<String>)
    ensures
        strs(r@) == comments_from_file_spec(list_file@, output_dir@),
{
    let mut v: Vec<String> = Vec::new();
    push_str(&mut v, "-o");
    push_str(&mut v, "%(id)s.comments.json");
    push_str(&mut v, "-P");
    push_str(&mut v, output_dir);
    push_str(&mut v, "-a");
    push_str(&mut v, list_file);
    push_str(&mut v, "--write-comments");
    push_str(&mut v, "--skip-download");
    push_str(&mut v, "--no-colors");
    assert(strs(v@) =~= comments_from_file_spec(list_file@, output_dir@));
    v
}

/// Arguments that fetch one video's comments; the video URL comes last.
pub open spec fn comments_for_video_spec(url: Seq<char>, out: Seq<char>) -> Seq<Seq<char>> {
    seq![
        "-o"@,
        "%(id)s.comments.json"@,
        "-P"@,
        out,
        "--write-comments"@,
        "--skip-download"@,
        "--no-colors"@,
        url,
    ]
}

/// Arguments that fetch the comments of `video` into `output_dir`.
pub fn comments_for_video_args(video: &Video, output_dir: &str) -> (r: Vec<String>)
    ensures
        strs(r@) == comments_for_video_spec("https://www.youtube.com/watch?v="@ + video.id@, output_dir@),
{
    let mut v: Vec<String> = Vec::new();
    push_str(&mut v, "-o");
    push_str(&mut v, "%(id)s.comments.json");
    push_str(&mut v, "-P");
    push_str(&mut v, output_dir);
    push_str(&mut v, "--write-comments");
    push_str(&mut v, "--skip-download");
    push_str(&mut v, "--no-colors");
    let url = video.url();
    push_str(&mut v, url.as_str());
    assert(strs(v@) =~= comments_for_video_spec("https://www.youtube.com/watch?v="@ + video.id@, output_dir@));
    v
}

/// Flags of a flat channel listing that prints `title-id` lines, restricted
/// to matching titles when a filter is given.
pub open spec fn channel_list_spec(filter: Option<Seq<char>>) -> Seq<Seq<char>> {
    let base = seq!["--flat-playlist"@, "--print"@, "%(title)s-%(id)s"@];
    match filter {
        Some(f) => base + seq!["--match-title"@, f],
        None => base,
    }
}

/// Flags of the flat listing of a channel's videos.
pub fn channel_list_args(filter: Option<&str>) -> (r: Vec<String>)
    ensures
        strs(r@) == channel_list_spec(
            match filter {
                Some(f) => Some(f@),
                None => None,
            },
        ),
{
    let mut v: Vec<String> = Vec::new();
    push_str(&mut v, "--flat-playlist");
    push_str(&mut v, "--print");
    push_str(&mut v, "%(title)s-%(id)s");
    match filter {
        Some(f) => {
            push_str(&mut v, "--match-title");
            push_str(&mut v, f);
            assert(strs(v@) =~= channel_list_spec(Some(f@)));
        },
        None => {
            assert(strs(v@) =~= channel_list_spec(None));
        },
    }
    v
}

/// The result of a streamed download: success, or the error a cancelled
/// download reports.
pub fn download_outcome(outcome: RunOutcome) -> (r: Result<(), String>)
    ensures
        outcome == RunOutcome::Success ==> r is Ok,
        outcome == RunOutcome::Cancelled ==> (r matches Err(m) && m@ == "download cancelled"@),
{
    match outcome {
        RunOutcome::Success => Ok(()),
        RunOutcome::Cancelled => Err("download cancelled".to_owned()),
    }
}

} // verus!
