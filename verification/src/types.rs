//! Strongly typed videos, video ids, channels and list files.
use vstd::prelude::*;
use crate::path::{file_name, file_name_of, join, join_path};
use crate::text::{chars_of, copy_range, string_of};

verus! {

broadcast use vstd::string::group_string_axioms;

/// The characters a YouTube video id or channel handle may hold: ASCII
/// letters, digits, `_` and `-`.
pub open spec fn is_id_char(c: char) -> bool {
    ('A' <= c && c <= 'Z') || ('a' <= c && c <= 'z') || ('0' <= c && c <= '9') || c == '_' || c
        == '-'
}

/// Every character of `s` is an id character.
pub open spec fn all_id_chars(s: Seq<char>) -> bool {
    forall|i: int| 0 <= i < s.len() ==> is_id_char(#[trigger] s[i])
}

/// A YouTube video id: exactly eleven id characters.
pub open spec fn is_valid_video_id(s: Seq<char>) -> bool {
    s.len() == 11 && all_id_chars(s)
}

/// A channel handle: one or more id characters.
pub open spec fn is_valid_channel_name(s: Seq<char>) -> bool {
    s.len() > 0 && all_id_chars(s)
}

/// Executable `is_id_char`.
pub fn id_char(c: char) -> (r: bool)
    ensures
        r == is_id_char(c),
{
    ('A' <= c && c <= 'Z') || ('a' <= c && c <= 'z') || ('0' <= c && c <= '9') || c == '_' || c
        == '-'
}

/// Executable `all_id_chars` on `v[from..to]`.
pub fn all_id_chars_in(v: &[char], from: usize, to: usize) -> (r: bool)
    requires
        from <= to <= v.len(),
    ensures
        r == all_id_chars(v@.subrange(from as int, to as int)),
{
    let mut i = from;
    while i < to
        invariant
            from <= i <= to <= v.len(),
            forall|j: int| from <= j < i ==> is_id_char(v@[j]),
        decreases to - i,
    {
        if !id_char(v[i]) {
            assert(v@.subrange(from as int, to as int)[i - from] == v@[i as int]);
            return false;
        }
        i = i + 1;
    }
    assert forall|j: int| 0 <= j < to - from implies is_id_char(
        #[trigger] v@.subrange(from as int, to as int)[j],
    ) by {
        assert(v@.subrange(from as int, to as int)[j] == v@[from + j]);
    }
    true
}

/// Eleven id characters make a valid id.
pub proof fn lemma_valid_id_text(s: Seq<char>)
    ensures
        s.len() == 11 && all_id_chars(s) ==> is_valid_video_id(s),
{
}

/// Why a value was refused.
#[derive(Debug, PartialEq, Eq)]
pub enum ValidationError {
    /// The text is not eleven id characters.
    InvalidVideoId(String),
    /// The text is empty or holds a character other than an id character.
    InvalidChannelName(String),
    /// The list file at this path does not exist.
    MissingListFile(String),
    /// The path has no final file name.
    NoFileName,
}

/// The message that reports a refusal.
pub open spec fn validation_message(e: ValidationError) -> Seq<char> {
    match e {
        ValidationError::InvalidVideoId(id) => "Invalid YouTube video ID: "@ + id@
            + ". Must be 11 alphanumeric characters."@,
        ValidationError::InvalidChannelName(n) => "Invalid channel name '"@ + n@
            + "': must contain only alphanumeric characters, underscores, or hyphens"@,
        ValidationError::MissingListFile(p) => "List file does not exist: "@
            + crate::text::debug_quoted(p@),
        ValidationError::NoFileName => "Failed to extract filename from path"@,
    }
}

impl ValidationError {
    /// The message that reports this refusal.
    pub fn message(&self) -> (r: String)
        ensures
            r@ == validation_message(*self),
    {
        match self {
            ValidationError::InvalidVideoId(id) => {
                let mut m = "Invalid YouTube video ID: ".to_owned();
                m.append(id.as_str());
                m.append(". Must be 11 alphanumeric characters.");
                m
            },
            ValidationError::InvalidChannelName(n) => {
                let mut m = "Invalid channel name '".to_owned();
                m.append(n.as_str());
                m.append("': must contain only alphanumeric characters, underscores, or hyphens");
                m
            },
            ValidationError::MissingListFile(p) => {
                let mut m = "List file does not exist: ".to_owned();
                let q = crate::text::debug_quote(p.as_str());
                m.append(q.as_str());
                m
            },
            ValidationError::NoFileName => "Failed to extract filename from path".to_owned(),
        }
    }
}

/// Strongly typed YouTube video id.
#[derive(Debug, PartialEq, Eq, Hash)]
pub struct VideoId(String);

impl View for VideoId {
    type V = Seq<char>;

    closed spec fn view(&self) -> Seq<char> {
        self.0@
    }
}

impl Clone for VideoId {
    fn clone(&self) -> (r: VideoId)
        ensures
            r@ == self@,
    {
        proof {
            use_type_invariant(self);
        }
        VideoId(self.0.clone())
    }
}

impl VideoId {
    #[verifier::type_invariant]
    spec fn inv(self) -> bool {
        is_valid_video_id(self.0@)
    }

    /// Validates `id` and wraps it.
    pub fn new(id: &str) -> (r: Result<VideoId, ValidationError>)
        ensures
            r is Ok <==> is_valid_video_id(id@),
            r matches Ok(v) ==> v@ == id@,
            r matches Err(e) ==> e matches ValidationError::InvalidVideoId(t) && t@ == id@,
    {
        let v = chars_of(id);
        if v.len() == 11 && all_id_chars_in(&v, 0, 11) {
            assert(v@.subrange(0, 11) =~= v@);
            Ok(VideoId(id.to_owned()))
        } else {
            proof {
                if v.len() == 11 {
                    assert(v@.subrange(0, 11) =~= v@);
                }
            }
            Err(ValidationError::InvalidVideoId(id.to_owned()))
        }
    }

    /// The id as text.
    pub fn to_string(&self) -> (r: String)
        ensures
            r@ == self@,
            is_valid_video_id(r@),
    {
        proof {
            use_type_invariant(self);
        }
        self.0.clone()
    }

    /// The id as a string slice.
    pub fn as_str(&self) -> (r: &str)
        ensures
            r@ == self@,
            is_valid_video_id(r@),
    {
        proof {
            use_type_invariant(self);
        }
        self.0.as_str()
    }

    /// Every `VideoId` holds a valid id.
    pub fn copy(&self) -> (r: VideoId)
        ensures
            r@ == self@,
            is_valid_video_id(r@),
    {
        proof {
            use_type_invariant(self);
        }
        VideoId(self.0.clone())
    }
}

/// Strongly typed channel handle.
#[derive(Debug, Clone, PartialEq, Eq)]
pub struct ChannelName(String);

impl View for ChannelName {
    type V = Seq<char>;

    closed spec fn view(&self) -> Seq<char> {
        self.0@
    }
}

impl Default for ChannelName {
    fn default() -> (r: ChannelName)
        ensures
            r@ == Seq::<char>::empty(),
    {
        ChannelName(String::new())
    }
}

/// The channel named in a channel reference: the text after the first `/@`
/// up to the next `/` when such a non-empty run exists; else the text after
/// the first `/channel/` up to the next `/` (a channel id such as `UC…`);
/// otherwise the input without one leading `@`.
pub open spec fn channel_reference_name(s: Seq<char>) -> Seq<char> {
    match first_handle(s, 0) {
        Some(i) => until_slash(s.skip(i + 2)),
        None => match find_from(s, "/channel/"@, 0) {
            Some(i) => until_slash(s.skip(i + 9)),
            None => if s.len() > 0 && s[0] == '@' {
                s.drop_first()
            } else {
                s
            },
        },
    }
}

/// The first index `i >= from` where `/@` is followed by a character other than `/`.
pub open spec fn first_handle(s: Seq<char>, from: int) -> Option<int>
    decreases s.len() - from,
{
    if from < 0 || from + 2 >= s.len() {
        None
    } else if s[from] == '/' && s[from + 1] == '@' && s[from + 2] != '/' {
        Some(from)
    } else {
        first_handle(s, from + 1)
    }
}

/// The longest prefix of `s` without a `/`.
pub open spec fn until_slash(s: Seq<char>) -> Seq<char>
    decreases s.len(),
{
    if s.len() == 0 || s[0] == '/' {
        Seq::empty()
    } else {
        seq![s[0]] + until_slash(s.drop_first())
    }
}

/// Text without `/` is its own longest prefix without `/`.
proof fn lemma_until_slash_whole(s: Seq<char>)
    requires
        forall|i: int| 0 <= i < s.len() ==> s[i] != '/',
    ensures
        until_slash(s) == s,
    decreases s.len(),
{
    if s.len() > 0 {
        lemma_until_slash_whole(s.drop_first());
        assert(seq![s[0]] + s.drop_first() =~= s);
    }
}

/// Whether a handle (`/@` and a character other than `/`) starts at `i`.
spec fn handle_at(s: Seq<char>, i: int) -> bool {
    0 <= i && i + 2 < s.len() && s[i] == '/' && s[i + 1] == '@' && s[i + 2] != '/'
}

/// `first_handle` skips positions where no handle starts.
proof fn lemma_first_handle_skip(s: Seq<char>, from: int, k: int)
    requires
        0 <= from <= k,
        forall|i: int| from <= i < k ==> !#[trigger] handle_at(s, i),
    ensures
        first_handle(s, from) == first_handle(s, k),
    decreases k - from,
{
    if from < k {
        assert(!handle_at(s, from));
        lemma_first_handle_skip(s, from + 1, k);
    }
}

/// Where `pat` occurs nowhere from `from` on, `find_from` finds nothing.
proof fn lemma_find_from_absent(s: Seq<char>, pat: Seq<char>, from: int)
    requires
        0 <= from,
        forall|i: int| from <= i ==> !#[trigger] occurs_at(s, pat, i),
    ensures
        find_from(s, pat, from) is None,
    decreases s.len() + 1 - from,
{
    if from + pat.len() <= s.len() {
        assert(!occurs_at(s, pat, from));
        lemma_find_from_absent(s, pat, from + 1);
    }
}

/// Text without `/` holds no `/channel/`.
proof fn lemma_no_channel_marker(s: Seq<char>)
    requires
        forall|i: int| 0 <= i < s.len() ==> s[i] != '/',
    ensures
        find_from(s, "/channel/"@, 0) is None,
{
    reveal_strlit("/channel/");
    let pat = "/channel/"@;
    assert forall|i: int| 0 <= i implies !#[trigger] occurs_at(s, pat, i) by {
        if occurs_at(s, pat, i) {
            assert(s.subrange(i, i + 9)[0] == s[i]);
        }
    }
    lemma_find_from_absent(s, pat, 0);
}

/// A channel URL names the channel id that follows `/channel/`.
proof fn lemma_channel_id_url(c: Seq<char>)
    requires
        is_valid_channel_name(c),
    ensures
        channel_reference_name("https://www.youtube.com/channel/"@ + c) == c,
{
    reveal_strlit("https://www.youtube.com/channel/");
    reveal_strlit("/channel/");
    let u = "https://www.youtube.com/channel/"@ + c;
    let pat = "/channel/"@;
    assert forall|i: int| 0 <= i < c.len() implies c[i] != '/' && c[i] != '@' by {
        assert(is_id_char(c[i]));
    }
    assert forall|i: int| 0 <= i < u.len() implies #[trigger] u[i] != '@' by {
        if i >= 32 {
            assert(u[i] == c[i - 32]);
        }
    }
    assert forall|i: int| 0 <= i implies !#[trigger] handle_at(u, i) by {
        if 0 <= i && i + 2 < u.len() {
            assert(u[i + 1] != '@');
        }
    }
    lemma_first_handle_skip(u, 0, u.len() as int);
    assert forall|i: int| 0 <= i < 23 implies !#[trigger] occurs_at(u, pat, i) by {
        if occurs_at(u, pat, i) {
            assert(u.subrange(i, i + 9)[1] == u[i + 1]);
            assert(u.subrange(i, i + 9)[0] == u[i]);
        }
    }
    assert(u.subrange(23, 32) =~= pat);
    lemma_find_from_first(u, pat, 0, 23);
    assert(u.skip(32) =~= c);
    lemma_until_slash_whole(c);
}

/// Law: a channel is named alike by its handle, by `@` and its handle, by
/// the URL `Channel::url` writes for it, and by the channel URL
/// `https://www.youtube.com/channel/<name>` (the form of `UC…` channel ids).
pub proof fn lemma_channel_reference_forms(c: Seq<char>)
    requires
        is_valid_channel_name(c),
    ensures
        channel_reference_name(c) == c,
        channel_reference_name("@"@ + c) == c,
        channel_reference_name("https://www.youtube.com/@"@ + c) == c,
        channel_reference_name("https://www.youtube.com/channel/"@ + c) == c,
{
    lemma_channel_id_url(c);
    reveal_strlit("@");
    reveal_strlit("https://www.youtube.com/@");
    assert forall|i: int| 0 <= i < c.len() implies c[i] != '/' && c[i] != '@' by {
        assert(is_id_char(c[i]));
    }
    lemma_first_handle_skip(c, 0, c.len() as int);
    lemma_no_channel_marker(c);
    let a = "@"@ + c;
    assert forall|i: int| 0 <= i < a.len() implies a[i] != '/' by {
        if i > 0 {
            assert(a[i] == c[i - 1]);
        }
    }
    lemma_first_handle_skip(a, 0, a.len() as int);
    lemma_no_channel_marker(a);
    assert(a.drop_first() =~= c);
    let u = "https://www.youtube.com/@"@ + c;
    assert(u[23] == '/' && u[24] == '@' && u[25] == c[0]);
    assert forall|i: int| 0 <= i < 23 implies !#[trigger] handle_at(u, i) by {
        assert(u[i + 1] != '@');
    }
    lemma_first_handle_skip(u, 0, 23);
    assert(u.skip(25) =~= c);
    lemma_until_slash_whole(c);
}

/// Whether `pat` occurs in `s` starting at index `i`.
pub open spec fn occurs_at(s: Seq<char>, pat: Seq<char>, i: int) -> bool {
    0 <= i && i + pat.len() <= s.len() && s.subrange(i, i + pat.len()) == pat
}

/// The first index `i >= from` at which `pat` occurs in `s`.
pub open spec fn find_from(s: Seq<char>, pat: Seq<char>, from: int) -> Option<int>
    decreases s.len() + 1 - from,
{
    if from < 0 || from + pat.len() > s.len() {
        None
    } else if occurs_at(s, pat, from) {
        Some(from)
    } else {
        find_from(s, pat, from + 1)
    }
}

/// `find_from` finds the first occurrence at or after `from`.
pub proof fn lemma_find_from_first(s: Seq<char>, pat: Seq<char>, from: int, k: int)
    requires
        0 <= from <= k,
        occurs_at(s, pat, k),
        forall|i: int| from <= i < k ==> !occurs_at(s, pat, i),
    ensures
        find_from(s, pat, from) == Some(k),
    decreases k - from,
{
    if from < k {
        assert(!occurs_at(s, pat, from));
        lemma_find_from_first(s, pat, from + 1, k);
    }
}

/// Where `find_from` finds nothing, `pat` occurs nowhere from `from` on.
pub proof fn lemma_find_from_none(s: Seq<char>, pat: Seq<char>, from: int, i: int)
    requires
        0 <= from <= i,
        find_from(s, pat, from) is None,
    ensures
        !occurs_at(s, pat, i),
    decreases i - from,
{
    if from < i && from + pat.len() <= s.len() {
        lemma_find_from_none(s, pat, from + 1, i);
    }
}

/// Executable `find_from(s, pat, 0)`.
pub fn find_chars(s: &[char], pat: &[char]) -> (r: Option<usize>)
    ensures
        match r {
            Some(i) => find_from(s@, pat@, 0) == Some(i as int) && i + pat.len() <= s.len(),
            None => find_from(s@, pat@, 0) is None,
        },
{
    let n = s.len();
    let m = pat.len();
    if m > n {
        return None;
    }
    if m == 0 {
        assert(s@.subrange(0, 0) =~= pat@);
        return Some(0);
    }
    let mut i: usize = 0;
    while i <= n - m
        invariant
            1 <= m <= n,
            n == s.len(),
            m == pat.len(),
            find_from(s@, pat@, 0) == find_from(s@, pat@, i as int),
        decreases n - m + 1 - i,
    {
        let piece = copy_range(s, i, i + m);
        if crate::text::chars_eq(&piece, pat) {
            return Some(i);
        }
        i = i + 1;
    }
    None
}

/// Executable `first_handle(s, 0)`.
fn find_handle(s: &[char]) -> (r: Option<usize>)
    ensures
        match r {
            Some(i) => first_handle(s@, 0) == Some(i as int) && i + 2 < s.len(),
            None => first_handle(s@, 0) is None,
        },
{
    let n = s.len();
    let mut i: usize = 0;
    while n >= 3 && i < n - 2
        invariant
            n == s.len(),
            first_handle(s@, 0) == first_handle(s@, i as int),
        decreases n - i,
    {
        if s[i] == '/' && s[i + 1] == '@' && s[i + 2] != '/' {
            return Some(i);
        }
        i = i + 1;
    }
    None
}

/// The characters of `s` from `start` up to the next `/`.
fn until_slash_from(s: &[char], start: usize) -> (r: Vec<char>)
    requires
        start <= s.len(),
    ensures
        r@ == until_slash(s@.skip(start as int)),
{
    let n = s.len();
    let mut end = start;
    while end < n && s[end] != '/'
        invariant
            start <= end <= n == s.len(),
            until_slash(s@.skip(start as int)) =~= s@.subrange(start as int, end as int)
                + until_slash(s@.skip(end as int)),
        decreases n - end,
    {
        assert(s@.skip(end as int).drop_first() =~= s@.skip(end + 1));
        assert(s@.subrange(start as int, end + 1) =~= s@.subrange(start as int, end as int)
            + seq![s@[end as int]]);
        end = end + 1;
    }
    assert(until_slash(s@.skip(end as int)) =~= Seq::<char>::empty());
    copy_range(s, start, end)
}

impl ChannelName {
    /// Validates `name` and wraps it.
    pub fn new(name: &str) -> (r: Result<ChannelName, ValidationError>)
        ensures
            r is Ok <==> is_valid_channel_name(name@),
            r matches Ok(v) ==> v@ == name@,
            r matches Err(e) ==> e matches ValidationError::InvalidChannelName(t) && t@ == name@,
    {
        let v = chars_of(name);
        let n = v.len();
        if n > 0 && all_id_chars_in(&v, 0, n) {
            assert(v@.subrange(0, n as int) =~= v@);
            Ok(ChannelName(name.to_owned()))
        } else {
            proof {
                assert(v@.subrange(0, n as int) =~= v@);
            }
            Err(ValidationError::InvalidChannelName(name.to_owned()))
        }
    }

    /// Reads a channel from a URL (`…/@name…`), an `@name`, or a plain name.
    pub fn parse(input: &str) -> (r: Result<ChannelName, ValidationError>)
        ensures
            r is Ok <==> is_valid_channel_name(channel_reference_name(input@)),
            r matches Ok(v) ==> v@ == channel_reference_name(input@),
            r matches Err(e) ==> e matches ValidationError::InvalidChannelName(t) && t@
                == channel_reference_name(input@),
    {
        let s = chars_of(input);
        let n = s.len();
        let found = find_handle(&s);
        let name: Vec<char> = match found {
            Some(i) => until_slash_from(&s, i + 2),
            None => {
                let marker = chars_of("/channel/");
                proof {
                    reveal_strlit("/channel/");
                }
                match find_chars(&s, &marker) {
                    Some(i) => until_slash_from(&s, i + 9),
                    None => {
                        if n > 0 && s[0] == '@' {
                            assert(s@.drop_first() =~= s@.subrange(1, n as int));
                            copy_range(&s, 1, n)
                        } else {
                            copy_range(&s, 0, n)
                        }
                    },
                }
            },
        };
        assert(name@ =~= channel_reference_name(input@));
        let text = string_of(&name);
        ChannelName::new(text.as_str())
    }

    /// The handle as text.
    pub fn to_string(&self) -> (r: String)
        ensures
            r@ == self@,
    {
        self.0.clone()
    }

    /// The handle as a string slice.
    pub fn as_str(&self) -> (r: &str)
        ensures
            r@ == self@,
    {
        self.0.as_str()
    }

    /// A copy of this handle.
    pub fn copy(&self) -> (r: ChannelName)
        ensures
            r@ == self@,
    {
        ChannelName(self.0.clone())
    }
}


/// A YouTube channel.
#[derive(Debug, Clone, PartialEq, Eq)]
pub struct Channel {
    pub name: ChannelName,
}

impl Default for Channel {
    fn default() -> (r: Channel)
        ensures
            r.name@ == Seq::<char>::empty(),
    {
        Channel { name: ChannelName::default() }
    }
}

impl Channel {
    pub fn new(name: ChannelName) -> (r: Channel)
        ensures
            r.name == name,
    {
        Channel { name }
    }

    /// `https://www.youtube.com/@<name>`.
    pub fn url(&self) -> (r: String)
        ensures
            r@ == "https://www.youtube.com/@"@ + self.name@,
    {
        let mut r = "https://www.youtube.com/@".to_owned();
        r.append(self.name.as_str());
        r
    }

    /// The channel's directory: its name.
    pub fn base_dir(&self) -> (r: String)
        ensures
            r@ == self.name@,
    {
        self.name.to_string()
    }

    /// `<name>/lists`.
    pub fn lists_dir(&self) -> (r: String)
        ensures
            r@ == join(self.name@, "lists"@),
    {
        join_path(self.name.as_str(), "lists")
    }

    /// `<name>/videos`.
    pub fn videos_dir(&self) -> (r: String)
        ensures
            r@ == join(self.name@, "videos"@),
    {
        join_path(self.name.as_str(), "videos")
    }

    /// `<name>/comments`.
    pub fn comments_dir(&self) -> (r: String)
        ensures
            r@ == join(self.name@, "comments"@),
    {
        join_path(self.name.as_str(), "comments")
    }

    /// A copy of this channel.
    pub fn copy(&self) -> (r: Channel)
        ensures
            r.name@ == self.name@,
    {
        Channel { name: self.name.copy() }
    }
}

/// Characters that may not stand in a file name on common systems.
pub open spec fn is_reserved_char(c: char) -> bool {
    c == '/' || c == '\\' || c == ':' || c == '*' || c == '?' || c == '"' || c == '<' || c == '>'
        || c == '|'
}

/// `s` with every reserved character replaced by `_`.
pub open spec fn sanitize_title(s: Seq<char>) -> Seq<char> {
    s.map_values(|c: char| if is_reserved_char(c) { '_' } else { c })
}

/// Replaces every reserved character of `s` by `_`.
pub fn sanitize_filename(s: &str) -> (r: String)
    ensures
        r@ == sanitize_title(s@),
{
    let v = chars_of(s);
    let mut out: Vec<char> = Vec::new();
    for i in 0..v.len()
        invariant
            out@ =~= sanitize_title(v@.take(i as int)),
    {
        let c = v[i];
        if c == '/' || c == '\\' || c == ':' || c == '*' || c == '?' || c == '"' || c == '<' || c
            == '>' || c == '|' {
            out.push('_');
        } else {
            out.push(c);
        }
        assert(out@ =~= sanitize_title(v@.take(i + 1)));
    }
    assert(v@.take(v.len() as int) =~= v@);
    string_of(&out)
}

/// `s` without its trailing `-` characters.
pub open spec fn trim_end_dashes(s: Seq<char>) -> Seq<char>
    decreases s.len(),
{
    if s.len() > 0 && s.last() == '-' {
        trim_end_dashes(s.drop_last())
    } else {
        s
    }
}

/// The last eleven characters of `s` when they are all id characters.
pub open spec fn trailing_id(s: Seq<char>) -> Option<Seq<char>> {
    if s.len() >= 11 && all_id_chars(s.skip(s.len() - 11)) {
        Some(s.skip(s.len() - 11))
    } else {
        None
    }
}

/// Executable `trailing_id`: whether the last eleven characters form an id.
fn has_trailing_id(v: &[char]) -> (r: bool)
    ensures
        r == trailing_id(v@) is Some,
{
    let n = v.len();
    if n < 11 {
        return false;
    }
    let ok = all_id_chars_in(v, n - 11, n);
    assert(v@.subrange(n - 11, n as int) =~= v@.skip(n - 11));
    ok
}

/// Executable `trim_end_dashes`.
fn trim_end_dashes_chars(v: &[char], end: usize) -> (r: Vec<char>)
    requires
        end <= v.len(),
    ensures
        r@ == trim_end_dashes(v@.take(end as int)),
{
    let mut j = end;
    while j > 0 && v[j - 1] == '-'
        invariant
            j <= end <= v.len(),
            trim_end_dashes(v@.take(end as int)) == trim_end_dashes(v@.take(j as int)),
        decreases j,
    {
        assert(v@.take(j as int).drop_last() =~= v@.take(j - 1));
        j = j - 1;
    }
    assert(v@.take(j as int) =~= v@.subrange(0, j as int));
    copy_range(v, 0, j)
}

/// `title-id` text split into its title and id: the id is the trailing
/// eleven id characters and the title is the rest without trailing `-`.
pub open spec fn title_id_split(s: Seq<char>) -> Option<(Seq<char>, Seq<char>)> {
    match trailing_id(s) {
        Some(id) => Some((trim_end_dashes(s.take(s.len() - 11)), id)),
        None => None,
    }
}

/// Law: the `title-id` text of a video reads back as its id and its title
/// (without the trailing `-` that reading strips).
pub proof fn lemma_title_id_string_round_trip(title: Seq<char>, id: Seq<char>)
    requires
        is_valid_video_id(id),
    ensures
        title_id_split(title + "-"@ + id) == Some((trim_end_dashes(title), id)),
{
    reveal_strlit("-");
    let s = title + "-"@ + id;
    assert(s.skip(s.len() - 11) =~= id);
    let head = s.take(s.len() - 11);
    assert(head =~= title.push('-'));
    assert(head.drop_last() =~= title);
}

/// A YouTube video.
#[derive(Debug, Clone, PartialEq)]
pub struct Video {
    pub id: VideoId,
    pub title: String,
    pub channel: Channel,
}

impl Video {
    pub fn new(id: VideoId, title: &str, channel: Channel) -> (r: Video)
        ensures
            r.id == id,
            r.title@ == title@,
            r.channel == channel,
    {
        Video { id, title: title.to_owned(), channel }
    }

    /// Reads `Title-<id>` text; the channel is left empty.
    pub fn from_title_id_string(s: &str) -> (r: Option<Video>)
        ensures
            match r {
                Some(v) => title_id_split(s@) == Some((v.title@, v.id@)) && v.channel.name@
                    == Seq::<char>::empty(),
                None => title_id_split(s@) is None,
            },
    {
        let v = chars_of(s);
        if !has_trailing_id(&v) {
            return None;
        }
        let n = v.len();
        let id_text = string_of(&copy_range(&v, n - 11, n));
        assert(v@.subrange(n - 11, n as int) =~= v@.skip(n - 11));
        let title = string_of(&trim_end_dashes_chars(&v, n - 11));
        match VideoId::new(id_text.as_str()) {
            Ok(id) => Some(Video { id, title, channel: Channel::default() }),
            Err(_) => None,
        }
    }

    /// `https://www.youtube.com/watch?v=<id>`.
    pub fn url(&self) -> (r: String)
        ensures
            r@ == "https://www.youtube.com/watch?v="@ + self.id@,
    {
        let mut r = "https://www.youtube.com/watch?v=".to_owned();
        r.append(self.id.as_str());
        r
    }

    /// `<sanitized title>-<id>`, the name a download is stored under.
    pub fn filename(&self) -> (r: String)
        ensures
            r@ == sanitize_title(self.title@) + "-"@ + self.id@,
    {
        let mut r = sanitize_filename(self.title.as_str());
        r.append("-");
        r.append(self.id.as_str());
        r
    }

    /// `<title>-<id>`, the form list files hold.
    pub fn to_title_id_string(&self) -> (r: String)
        ensures
            r@ == self.title@ + "-"@ + self.id@,
    {
        let mut r = self.title.clone();
        r.append("-");
        r.append(self.id.as_str());
        r
    }
}


/// `s` has `lit` at `i`, followed by eleven id characters.
pub open spec fn id_follows(s: Seq<char>, lit: Seq<char>, i: int) -> bool {
    occurs_at(s, lit, i) && i + lit.len() + 11 <= s.len() && all_id_chars(
        s.subrange(i + lit.len(), i + lit.len() + 11),
    )
}

/// Where the id starts in the first occurrence, from `from` on, of `lit`
/// followed by eleven id characters.
pub open spec fn first_id_after(s: Seq<char>, lit: Seq<char>, from: int) -> Option<int>
    decreases s.len() + 1 - from,
{
    if from < 0 || from + lit.len() + 11 > s.len() {
        None
    } else if id_follows(s, lit, from) {
        Some(from + lit.len())
    } else {
        first_id_after(s, lit, from + 1)
    }
}

/// The video id a YouTube URL names: after `youtube.com/watch?v=`, else after `youtu.be/`.
pub open spec fn url_video_id(s: Seq<char>) -> Option<Seq<char>> {
    match first_id_after(s, "youtube.com/watch?v="@, 0) {
        Some(k) => Some(s.subrange(k, k + 11)),
        None => match first_id_after(s, "youtu.be/"@, 0) {
            Some(k) => Some(s.subrange(k, k + 11)),
            None => None,
        },
    }
}

/// Executable `first_id_after(s, lit, 0)`.
fn find_id_after(s: &[char], lit: &[char]) -> (r: Option<usize>)
    ensures
        match r {
            Some(k) => first_id_after(s@, lit@, 0) == Some(k as int) && k + 11 <= s.len(),
            None => first_id_after(s@, lit@, 0) is None,
        },
{
    let n = s.len();
    let m = lit.len();
    if m > n || n - m < 11 {
        return None;
    }
    let mut i: usize = 0;
    while i <= n - m - 11
        invariant
            m + 11 <= n,
            n == s.len(),
            m == lit.len(),
            first_id_after(s@, lit@, 0) == first_id_after(s@, lit@, i as int),
        decreases n - m - 11 + 1 - i,
    {
        let piece = copy_range(s, i, i + m);
        if crate::text::chars_eq(&piece, lit) && all_id_chars_in(s, i + m, i + m + 11) {
            return Some(i + m);
        }
        i = i + 1;
    }
    None
}

/// Executable `url_video_id`: the start of the id in `s`.
fn find_url_video_id(s: &[char]) -> (r: Option<usize>)
    ensures
        match r {
            Some(k) => k + 11 <= s.len() && url_video_id(s@) == Some(s@.subrange(k as int, k + 11)),
            None => url_video_id(s@) is None,
        },
{
    let watch = chars_of("youtube.com/watch?v=");
    match find_id_after(s, &watch) {
        Some(k) => Some(k),
        None => {
            let short = chars_of("youtu.be/");
            find_id_after(s, &short)
        },
    }
}

/// Reads the video a YouTube URL names; its title is unknown.
pub fn parse_video_from_url(url: &str, channel: &Channel) -> (r: Option<Video>)
    ensures
        match r {
            Some(v) => url_video_id(url@) == Some(v.id@) && v.title@ == Seq::<char>::empty()
                && v.channel.name@ == channel.name@,
            None => url_video_id(url@) is None,
        },
{
    let s = chars_of(url);
    match find_url_video_id(&s) {
        Some(k) => {
            let id_text = string_of(&copy_range(&s, k, k + 11));
            match VideoId::new(id_text.as_str()) {
                Ok(id) => Some(Video { id, title: String::new(), channel: channel.copy() }),
                Err(_) => {
                    proof {
                        let t = s@.subrange(k as int, k + 11);
                        match first_id_after(s@, "youtube.com/watch?v="@, 0) {
                            Some(j) => {
                                lemma_first_id_after(s@, "youtube.com/watch?v="@, 0);
                            },
                            None => {
                                lemma_first_id_after(s@, "youtu.be/"@, 0);
                            },
                        }
                    }
                    None
                },
            }
        },
        None => None,
    }
}

/// What `first_id_after` finds is an id.
pub proof fn lemma_first_id_after(s: Seq<char>, lit: Seq<char>, from: int)
    ensures
        first_id_after(s, lit, from) matches Some(k) ==> k + 11 <= s.len() && is_valid_video_id(
            s.subrange(k, k + 11),
        ),
    decreases s.len() + 1 - from,
{
    if !(from < 0 || from + lit.len() + 11 > s.len()) && !id_follows(s, lit, from) {
        lemma_first_id_after(s, lit, from + 1);
    }
}

proof fn lemma_skip_to_watch_id(s: Seq<char>, from: int)
    requires
        0 <= from <= 12,
        s.len() >= 43,
        s.take(12) == "https://www."@,
    ensures
        first_id_after(s, "youtube.com/watch?v="@, from) == first_id_after(
            s,
            "youtube.com/watch?v="@,
            12,
        ),
    decreases 12 - from,
{
    reveal_strlit("youtube.com/watch?v=");
    reveal_strlit("https://www.");
    if from < 12 {
        assert(s[from] == s.take(12)[from]);
        assert(s[from] != 'y');
        assert(s.subrange(from, from + 20)[0] == s[from]);
        assert(!occurs_at(s, "youtube.com/watch?v="@, from));
        lemma_skip_to_watch_id(s, from + 1);
    }
}

/// Law: the watch URL of a video (as `Video::url` writes it) names that video.
pub proof fn lemma_watch_url_names_video(id: Seq<char>)
    requires
        is_valid_video_id(id),
    ensures
        url_video_id("https://www.youtube.com/watch?v="@ + id) == Some(id),
{
    reveal_strlit("https://www.youtube.com/watch?v=");
    reveal_strlit("youtube.com/watch?v=");
    reveal_strlit("https://www.");
    let s = "https://www.youtube.com/watch?v="@ + id;
    let lit = "youtube.com/watch?v="@;
    assert(s.take(12) =~= "https://www."@);
    lemma_skip_to_watch_id(s, 0);
    assert(s.subrange(12, 32) =~= lit);
    assert(s.subrange(32, 43) =~= id);
    assert(id_follows(s, lit, 12));
}

/// `first_id_after` skips positions where `lit` does not occur.
proof fn lemma_first_id_after_skip(s: Seq<char>, lit: Seq<char>, from: int, k: int)
    requires
        0 <= from <= k,
        forall|i: int| from <= i < k ==> !#[trigger] occurs_at(s, lit, i),
    ensures
        first_id_after(s, lit, from) == first_id_after(s, lit, k),
    decreases k - from,
{
    if from < k {
        assert(!occurs_at(s, lit, from));
        lemma_first_id_after_skip(s, lit, from + 1, k);
    }
}

/// Where `lit` occurs nowhere from `from` on, no id follows it.
proof fn lemma_first_id_after_none(s: Seq<char>, lit: Seq<char>, from: int)
    requires
        0 <= from,
        forall|i: int| from <= i ==> !#[trigger] occurs_at(s, lit, i),
    ensures
        first_id_after(s, lit, from) is None,
    decreases s.len() + 1 - from,
{
    if !(from + lit.len() + 11 > s.len()) {
        assert(!occurs_at(s, lit, from));
        lemma_first_id_after_none(s, lit, from + 1);
    }
}

/// Law: the id a URL names does not depend on a query after it. A watch
/// URL names its video whatever follows `&` after the id; a `youtu.be` URL
/// names its video whatever follows `?` after the id, when that text holds
/// no watch URL (the reader looks for a watch URL first).
pub proof fn lemma_url_query_keeps_id(id: Seq<char>, u: Seq<char>)
    requires
        is_valid_video_id(id),
    ensures
        url_video_id("https://www.youtube.com/watch?v="@ + id + "&"@ + u) == Some(id),
        find_from(u, "youtube.com/watch?v="@, 0) is None ==> url_video_id(
            "https://youtu.be/"@ + id + "?"@ + u,
        ) == Some(id),
{
    reveal_strlit("https://www.youtube.com/watch?v=");
    reveal_strlit("youtube.com/watch?v=");
    reveal_strlit("https://www.");
    reveal_strlit("https://youtu.be/");
    reveal_strlit("youtu.be/");
    reveal_strlit("&");
    reveal_strlit("?");
    let w = "youtube.com/watch?v="@;
    let s = "https://www.youtube.com/watch?v="@ + id + "&"@ + u;
    assert(s.take(12) =~= "https://www."@);
    lemma_skip_to_watch_id(s, 0);
    assert(s.subrange(12, 32) =~= w);
    assert(s.subrange(32, 43) =~= id);
    assert(id_follows(s, w, 12));
    if find_from(u, w, 0) is None {
        let t = "https://youtu.be/"@ + id + "?"@ + u;
        let y = "youtu.be/"@;
        assert forall|i: int| 0 <= i implies !#[trigger] occurs_at(t, w, i) by {
            if occurs_at(t, w, i) {
                let piece = t.subrange(i, i + 20);
                assert(piece == w);
                if i < 17 && i != 8 {
                    assert(piece[0] == t[i]);
                } else if i == 8 {
                    assert(piece[5] == t[13]);
                } else if i <= 20 {
                    assert(piece[7] == t[i + 7]);
                    assert(t[i + 7] == id[i + 7 - 17]);
                    assert(is_id_char(id[i + 7 - 17]));
                } else if i <= 28 {
                    assert(piece[28 - i] == t[28]);
                } else {
                    assert(u.subrange(i - 29, i - 9) =~= piece);
                    lemma_find_from_none(u, w, 0, i - 29);
                }
            }
        }
        lemma_first_id_after_none(t, w, 0);
        assert forall|i: int| 0 <= i < 8 implies !#[trigger] occurs_at(t, y, i) by {
            if occurs_at(t, y, i) {
                assert(t.subrange(i, i + 9)[0] == t[i]);
            }
        }
        lemma_first_id_after_skip(t, y, 0, 8);
        assert(t.subrange(8, 17) =~= y);
        assert(t.subrange(17, 28) =~= id);
        assert(id_follows(t, y, 8));
    }
}

/// The (title, id) pair one trimmed list-file line yields, if any: the
/// video a URL names (title unknown), or else the line read as `title-id`.
pub open spec fn list_line_entries(l: Seq<char>) -> Seq<(Seq<char>, Seq<char>)> {
    match url_video_id(l) {
        Some(id) => seq![(Seq::<char>::empty(), id)],
        None => match title_id_split(l) {
            Some(p) => seq![p],
            None => Seq::empty(),
        },
    }
}

/// The (title, id) pairs of all lines, in order.
pub open spec fn list_entries(ls: Seq<Seq<char>>) -> Seq<(Seq<char>, Seq<char>)>
    decreases ls.len(),
{
    if ls.len() == 0 {
        Seq::empty()
    } else {
        list_entries(ls.drop_last()) + list_line_entries(crate::text::trim(ls.last()))
    }
}

/// `v` is the video with this title and id on this channel.
pub open spec fn video_is(v: Video, e: (Seq<char>, Seq<char>), channel: Seq<char>) -> bool {
    v.title@ == e.0 && v.id@ == e.1 && v.channel.name@ == channel
}

/// The channel part of a list file's name: the text before the first `-list`.
pub open spec fn list_channel_name(name: Seq<char>) -> Seq<char> {
    match find_from(name, "-list"@, 0) {
        Some(i) => name.take(i),
        None => name,
    }
}

/// Executable `list_channel_name`.
fn list_channel_name_of(name: &[char]) -> (r: Vec<char>)
    ensures
        r@ == list_channel_name(name@),
{
    let marker = chars_of("-list");
    match find_chars(name, &marker) {
        Some(i) => {
            assert(name@.take(i as int) =~= name@.subrange(0, i as int));
            copy_range(name, 0, i)
        },
        None => copy_range(name, 0, name.len()),
    }
}

/// The channel a list file belongs to, read from its file name; `unknown`
/// when the path has no file name.
pub fn extract_channel_name(path: &str) -> (r: String)
    ensures
        r@ == match file_name(path@) {
            Some(n) => list_channel_name(n),
            None => "unknown"@,
        },
{
    let p = chars_of(path);
    match file_name_of(&p) {
        Some(n) => string_of(&list_channel_name_of(&n)),
        None => "unknown".to_owned(),
    }
}

/// A list file of video URLs or `title-id` lines.
#[derive(Debug, Clone)]
pub struct ListFile {
    pub path: String,
    pub channel: Channel,
}

impl ListFile {
    /// A list file at `path`, which `exists` tells whether it is on disk;
    /// the channel comes from the file name.
    pub fn from_path(path: &str, exists: bool) -> (r: Result<ListFile, ValidationError>)
        ensures
            !exists ==> (r matches Err(e) && e matches ValidationError::MissingListFile(t) && t@
                == path@),
            exists ==> match file_name(path@) {
                None => r matches Err(e) && e == ValidationError::NoFileName,
                Some(n) => if is_valid_channel_name(list_channel_name(n)) {
                    r matches Ok(lf) && lf.path@ == path@ && lf.channel.name@ == list_channel_name(
                        n,
                    )
                } else {
                    r matches Err(e) && e matches ValidationError::InvalidChannelName(t) && t@
                        == list_channel_name(n)
                },
            },
    {
        if !exists {
            return Err(ValidationError::MissingListFile(path.to_owned()));
        }
        match Self::extract_channel_from_path(path) {
            Ok(channel) => Ok(ListFile { path: path.to_owned(), channel }),
            Err(e) => Err(e),
        }
    }

    /// The channel named by the file name of `path`.
    pub fn extract_channel_from_path(path: &str) -> (r: Result<Channel, ValidationError>)
        ensures
            match file_name(path@) {
                None => r matches Err(e) && e == ValidationError::NoFileName,
                Some(n) => if is_valid_channel_name(list_channel_name(n)) {
                    r matches Ok(c) && c.name@ == list_channel_name(n)
                } else {
                    r matches Err(e) && e matches ValidationError::InvalidChannelName(t) && t@
                        == list_channel_name(n)
                },
            },
    {
        let p = chars_of(path);
        match file_name_of(&p) {
            None => Err(ValidationError::NoFileName),
            Some(n) => {
                let name = string_of(&list_channel_name_of(&n));
                match ChannelName::new(name.as_str()) {
                    Ok(c) => Ok(Channel::new(c)),
                    Err(e) => Err(e),
                }
            },
        }
    }

    /// The videos the list-file `text` names: at most one per line, in order.
    pub fn read_videos(&self, text: &str) -> (r: Vec<Video>)
        ensures
            r.len() == list_entries(crate::text::lines(text@)).len(),
            forall|i: int|
                0 <= i < r.len() ==> video_is(
                    #[trigger] r@[i],
                    list_entries(crate::text::lines(text@))[i],
                    self.channel.name@,
                ),
    {
        let chars = chars_of(text);
        let ls = crate::text::lines_of(&chars);
        let ghost all = crate::text::lines(text@);
        let mut out: Vec<Video> = Vec::new();
        for k in 0..ls.len()
            invariant
                crate::text::views(ls@) == all,
                all == crate::text::lines(text@),
                out.len() == list_entries(all.take(k as int)).len(),
                forall|i: int|
                    0 <= i < out.len() ==> video_is(
                        #[trigger] out@[i],
                        list_entries(all.take(k as int))[i],
                        self.channel.name@,
                    ),
        {
            assert(crate::text::views(ls@)[k as int] == ls@[k as int]@);
            let line = crate::text::trim_chars(&ls[k]);
            let ghost l = line@;
            let ghost before = out@;
            assert(l == crate::text::trim(all[k as int]));
            let mut found: Vec<Video> = Vec::new();
            match find_url_video_id(&line) {
                Some(j) => {
                    let id_text = string_of(&copy_range(&line, j, j + 11));
                    proof {
                        match first_id_after(l, "youtube.com/watch?v="@, 0) {
                            Some(_) => lemma_first_id_after(l, "youtube.com/watch?v="@, 0),
                            None => lemma_first_id_after(l, "youtu.be/"@, 0),
                        }
                    }
                    match VideoId::new(id_text.as_str()) {
                        Ok(id) => found.push(
                            Video { id, title: String::new(), channel: self.channel.copy() },
                        ),
                        Err(_) => {},
                    }
                },
                None => {
                    let line_text = string_of(&line);
                    match Video::from_title_id_string(line_text.as_str()) {
                        Some(v) => found.push(
                            Video { id: v.id, title: v.title, channel: self.channel.copy() },
                        ),
                        None => {},
                    }
                },
            }
            assert(found.len() == list_line_entries(l).len());
            assert(forall|i: int|
                0 <= i < found.len() ==> video_is(
                    #[trigger] found@[i],
                    list_line_entries(l)[i],
                    self.channel.name@,
                ));
            out.append(&mut found);
            assert(all.take(k + 1).drop_last() =~= all.take(k as int));
            assert(list_entries(all.take(k + 1)) == list_entries(all.take(k as int))
                + list_line_entries(l));
        }
        assert(all.take(ls.len() as int) =~= all);
        out
    }
}

} // verus!
