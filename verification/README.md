# midnite-archive

A command-line tool that archives YouTube channels with `yt-dlp`: it lists a
channel's videos, downloads them with a shared download archive, fetches
comments, and renames downloaded files to safe names.

## Layout

- `src/` — the verified library (Verus). Its functions carry
  `requires`/`ensures` contracts over a mathematical model of their inputs
  (text as `Seq<char>`, lists as `Seq`, multisets for reordering); the laws
  that relate several functions are public proof functions.
  - `text`, `path`, `sort`: characters, lines, trimming, path joining and
    file names, and a key-ordered insertion sort.
  - `types`: video ids, channel names, channels, videos, list files.
  - `yt_dlp`: reading `yt-dlp` listings and version output, tool probes.
  - `archive`: download-archive paths, the union of archive files, and the
    canonical archive text, with the laws of the union and of rewriting it.
  - `events`, `process`: classifying `yt-dlp` output lines and the state
    machine of a streamed run (stderr tail, drain, cancel, exit report).
  - `args`: the argument lists passed to `yt-dlp`.
  - `rename`: sanitized file names and conflict names.
  - `report`, `commands`, `cli`, `backend`: the text the commands print, the
    decisions they take, and the command line as plain data.
- `tests/` — tests of the library on concrete values.
- `app/` — the program: argument parsing, logging, processes, files and the
  terminal, calling the library for every decision.
