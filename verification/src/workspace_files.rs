//! The OpenClaw workspace files: which files may be read and written, which names
//! are daily memory files, and the listing and full-text search of the daily
//! memory files.

use vstd::prelude::*;
use vstd::string::StringSliceAdditionalSpecFns;
use vstd::utf8::{is_char_boundary, encode_utf8, decode_utf8, valid_utf8};
use crate::text::{path_join, join_path};
use crate::continuation_store::str_eq;
use crate::sorting::{Keyed, sort_stable, sorted_stable, key_of, lemma_sorted_map, law_sorted_stable};

verus! {

broadcast use vstd::seq_lib::group_seq_properties;

/// The workspace files that may be read and written, in order.
pub open spec fn allowed_file_names() -> Seq<Seq<char>> {
    seq![
        "AGENTS.md"@,
        "SOUL.md"@,
        "USER.md"@,
        "IDENTITY.md"@,
        "TOOLS.md"@,
        "MEMORY.md"@,
        "HEARTBEAT.md"@,
        "BOOTSTRAP.md"@,
        "BOOT.md"@,
    ]
}

/// The workspace files that may be read and written.
pub fn allowed_files() -> (r: Vec<&'static str>)
    ensures
        r@.len() == allowed_file_names().len(),
        forall|i: int| 0 <= i < r@.len() ==> (#[trigger] r@[i])@ == allowed_file_names()[i],
{
    vec![
        "AGENTS.md",
        "SOUL.md",
        "USER.md",
        "IDENTITY.md",
        "TOOLS.md",
        "MEMORY.md",
        "HEARTBEAT.md",
        "BOOTSTRAP.md",
        "BOOT.md",
    ]
}

/// The names of `list` separated by `sep`.
pub open spec fn join_names(list: Seq<Seq<char>>, sep: Seq<char>) -> Seq<char>
    decreases list.len(),
{
    if list.len() == 0 {
        seq![]
    } else if list.len() == 1 {
        list[0]
    } else {
        join_names(list.drop_last(), sep) + sep + list.last()
    }
}

/// The message refusing workspace file `filename`.
pub open spec fn invalid_workspace_filename_message(filename: Seq<char>) -> Seq<char> {
    "Invalid workspace filename: "@ + filename + ". Allowed: "@ + join_names(allowed_file_names(), ", "@)
}

/// Accepts `filename` when it is one of the allowed workspace files; otherwise
/// refuses it with a message that names it and lists the allowed ones.
pub fn validate_filename(filename: &str) -> (r: Result<(), String>)
    ensures
        r is Ok <==> allowed_file_names().contains(filename@),
        r matches Err(m) ==> m@ == invalid_workspace_filename_message(filename@),
{
    let allowed = allowed_files();
    let mut i: usize = 0;
    while i < allowed.len()
        invariant
            i <= allowed@.len(),
            allowed@.len() == allowed_file_names().len(),
            forall|k: int| 0 <= k < allowed@.len() ==> (#[trigger] allowed@[k])@ == allowed_file_names()[k],
            forall|k: int| 0 <= k < i ==> allowed_file_names()[k] != filename@,
        decreases allowed@.len() - i,
    {
        if str_eq(allowed[i], filename) {
            proof {
                assert(allowed_file_names()[i as int] == filename@);
            }
            return Ok(());
        }
        i = i + 1;
    }
    let mut listing = String::new();
    let sep = ", ";
    let mut j: usize = 0;
    while j < allowed.len()
        invariant
            j <= allowed@.len(),
            allowed@.len() == allowed_file_names().len(),
            forall|k: int| 0 <= k < allowed@.len() ==> (#[trigger] allowed@[k])@ == allowed_file_names()[k],
            listing@ == join_names(allowed_file_names().take(j as int), sep@),
        decreases allowed@.len() - j,
    {
        proof {
            assert(allowed_file_names().take(j + 1).drop_last() =~= allowed_file_names().take(j as int));
            assert(allowed_file_names().take(j + 1).last() == allowed_file_names()[j as int]);
        }
        if j > 0 {
            listing.append(sep);
        } else {
            proof {
                assert(allowed_file_names().take(1) =~= seq![allowed_file_names()[0]]);
            }
        }
        listing.append(allowed[j]);
        j = j + 1;
    }
    proof {
        assert(allowed_file_names().take(allowed@.len() as int) =~= allowed_file_names());
    }
    let mut message = String::new();
    message.append("Invalid workspace filename: ");
    message.append(filename);
    message.append(". Allowed: ");
    message.append(listing.as_str());
    proof {
        assert(!allowed_file_names().contains(filename@)) by {
            if allowed_file_names().contains(filename@) {
                let k = choose|k: int| 0 <= k < allowed_file_names().len() && allowed_file_names()[k] == filename@;
                assert(allowed_file_names()[k] != filename@);
            }
        }
        assert(message@ =~= invalid_workspace_filename_message(filename@));
    }
    Err(message)
}

/// The pattern of a daily memory file name: a date and `.md`.
pub const DAILY_MEMORY_PATTERN: &'static str = r"^\d{4}-\d{2}-\d{2}\.md$";

/// Whether `text` matches the regular expression `pattern` (`None` where the
/// pattern does not compile), as the `regex` crate decides it.
pub uninterp spec fn regex_match(pattern: Seq<char>, text: Seq<char>) -> Option<bool>;

/// Matches `text` against `pattern` with the `regex` crate (`Regex::new`,
/// `Regex::is_match`). Trusted: the result is the value named `regex_match`.
#[verifier::external_body]
fn regex_is_match(pattern: &str, text: &str) -> (r: Option<bool>)
    ensures
        r == regex_match(pattern@, text@),
{
    match regex::Regex::new(pattern) {
        Ok(re) => Some(re.is_match(text)),
        Err(_) => None,
    }
}

/// The message refusing daily memory file `filename`.
pub open spec fn invalid_daily_memory_message(filename: Seq<char>) -> Seq<char> {
    "Invalid daily memory filename: "@ + filename + ". Expected: YYYY-MM-DD.md"@
}

/// Accepts `filename` when the daily memory pattern matches it; otherwise refuses it
/// with a message that names it and the expected form.
pub fn validate_daily_memory_filename(filename: &str) -> (r: Result<(), String>)
    ensures
        r is Ok <==> regex_match(DAILY_MEMORY_PATTERN@, filename@) == Some(true),
        r matches Err(m) ==> m@ == invalid_daily_memory_message(filename@),
{
    match regex_is_match(DAILY_MEMORY_PATTERN, filename) {
        Some(true) => Ok(()),
        _ => {
            let mut message = String::new();
            message.append("Invalid daily memory filename: ");
            message.append(filename);
            message.append(". Expected: YYYY-MM-DD.md");
            Err(message)
        },
    }
}

/// The largest character boundary of `b` at or below `i` (the length where `i` is
/// at or past the end).
pub open spec fn floor_boundary(b: Seq<u8>, i: int) -> int
    decreases i,
{
    if i >= b.len() {
        b.len() as int
    } else if i <= 0 || is_char_boundary(b, i) {
        if i < 0 { 0 } else { i }
    } else {
        floor_boundary(b, i - 1)
    }
}

/// The smallest character boundary of `b` at or above `i` (the length where `i` is
/// at or past the end).
pub open spec fn ceil_boundary(b: Seq<u8>, i: int) -> int
    decreases b.len() - i,
{
    if i >= b.len() {
        b.len() as int
    } else if is_char_boundary(b, i) {
        i
    } else {
        ceil_boundary(b, i + 1)
    }
}

proof fn lemma_floor_boundary(b: Seq<u8>, i: int)
    requires
        valid_utf8(b),
        0 <= i,
    ensures
        0 <= floor_boundary(b, i) <= b.len(),
        floor_boundary(b, i) <= i || i >= b.len(),
        is_char_boundary(b, floor_boundary(b, i)),
        i < b.len() ==> forall|j: int| floor_boundary(b, i) < j <= i ==> !#[trigger] is_char_boundary(b, j),
    decreases i,
{
    vstd::utf8::is_char_boundary_start_end_of_seq(b);
    if i < b.len() && i > 0 && !is_char_boundary(b, i) {
        lemma_floor_boundary(b, i - 1);
    }
}

proof fn lemma_ceil_boundary(b: Seq<u8>, i: int)
    requires
        valid_utf8(b),
        0 <= i,
    ensures
        i <= ceil_boundary(b, i) <= b.len() || (i >= b.len() && ceil_boundary(b, i) == b.len()),
        is_char_boundary(b, ceil_boundary(b, i)),
        forall|j: int| i <= j < ceil_boundary(b, i) ==> !#[trigger] is_char_boundary(b, j),
    decreases b.len() - i,
{
    vstd::utf8::is_char_boundary_start_end_of_seq(b);
    if i < b.len() && !is_char_boundary(b, i) {
        lemma_ceil_boundary(b, i + 1);
    }
}

/// The length of `s` in bytes.
pub fn byte_len(s: &str) -> (r: usize)
    ensures
        r == s.spec_bytes().len(),
{
    s.as_bytes().len()
}

/// The largest index at or below `i` that is a character boundary of `s`.
pub fn floor_char_boundary(s: &str, i: usize) -> (r: usize)
    ensures
        r == floor_boundary(s.spec_bytes(), i as int),
        r <= s.spec_bytes().len(),
        is_char_boundary(s.spec_bytes(), r as int),
        i >= s.spec_bytes().len() ==> r == s.spec_bytes().len(),
        i < s.spec_bytes().len() ==> r <= i && forall|j: int|
            r < j <= i ==> !#[trigger] is_char_boundary(s.spec_bytes(), j),
{
    proof {
        vstd::utf8::encode_utf8_valid_utf8(s@);
        lemma_floor_boundary(s.spec_bytes(), i as int);
    }
    if i >= byte_len(s) {
        return byte_len(s);
    }
    proof {
        vstd::utf8::encode_utf8_valid_utf8(s@);
        vstd::utf8::is_char_boundary_start_end_of_seq(s.spec_bytes());
    }
    let ghost i0 = i as int;
    let mut i = i;
    while !s.is_char_boundary(i)
        invariant
            i < s.spec_bytes().len(),
            valid_utf8(s.spec_bytes()),
            is_char_boundary(s.spec_bytes(), 0),
            floor_boundary(s.spec_bytes(), i as int) == floor_boundary(s.spec_bytes(), i0),
        decreases i,
    {
        i = i - 1;
    }
    i
}

/// The smallest index at or above `i` that is a character boundary of `s` (its
/// length where `i` is at or past the end).
pub fn ceil_char_boundary(s: &str, i: usize) -> (r: usize)
    ensures
        r == ceil_boundary(s.spec_bytes(), i as int),
        r <= s.spec_bytes().len(),
        is_char_boundary(s.spec_bytes(), r as int),
        i >= s.spec_bytes().len() ==> r == s.spec_bytes().len(),
        i < s.spec_bytes().len() ==> i <= r && forall|j: int|
            i <= j < r ==> !#[trigger] is_char_boundary(s.spec_bytes(), j),
{
    proof {
        vstd::utf8::encode_utf8_valid_utf8(s@);
        lemma_ceil_boundary(s.spec_bytes(), i as int);
    }
    if i >= byte_len(s) {
        return byte_len(s);
    }
    proof {
        vstd::utf8::encode_utf8_valid_utf8(s@);
        vstd::utf8::is_char_boundary_start_end_of_seq(s.spec_bytes());
    }
    let ghost i0 = i as int;
    let mut i = i;
    while i < byte_len(s) && !s.is_char_boundary(i)
        invariant
            i <= s.spec_bytes().len(),
            valid_utf8(s.spec_bytes()),
            ceil_boundary(s.spec_bytes(), i as int) == ceil_boundary(s.spec_bytes(), i0),
        decreases s.spec_bytes().len() - i,
    {
        i = i + 1;
    }
    i
}


proof fn lemma_boundary_in_suffix(b: Seq<u8>, start: int, end: int)
    requires
        valid_utf8(b),
        0 <= start <= end <= b.len(),
        is_char_boundary(b, start),
        is_char_boundary(b, end),
    ensures
        valid_utf8(b.subrange(start, b.len() as int)),
        is_char_boundary(b.subrange(start, b.len() as int), end - start),
{
    let t = b.subrange(start, b.len() as int);
    vstd::utf8::valid_utf8_split(b, start);
    vstd::utf8::is_char_boundary_start_end_of_seq(t);
    if end < b.len() {
        vstd::utf8::is_char_boundary_iff_not_is_continuation_byte(b, end);
        vstd::utf8::is_char_boundary_iff_not_is_continuation_byte(t, end - start);
        assert(t[end - start] == b[end]);
    } else {
        assert(end - start == t.len());
    }
}

/// The part of `s` between the byte offsets `start` and `end`, both character
/// boundaries.
pub fn byte_slice(s: &str, start: usize, end: usize) -> (r: &str)
    requires
        start <= end <= s.spec_bytes().len(),
        is_char_boundary(s.spec_bytes(), start as int),
        is_char_boundary(s.spec_bytes(), end as int),
    ensures
        r.spec_bytes() == s.spec_bytes().subrange(start as int, end as int),
        r@ == decode_utf8(s.spec_bytes().subrange(start as int, end as int)),
{
    proof {
        vstd::utf8::encode_utf8_valid_utf8(s@);
        lemma_boundary_in_suffix(s.spec_bytes(), start as int, end as int);
    }
    let (_, tail) = s.split_at(start);
    let (mid, _) = tail.split_at(end - start);
    proof {
        assert(mid.spec_bytes() =~= s.spec_bytes().subrange(start as int, end as int));
        vstd::utf8::encode_utf8_decode_utf8(mid@);
    }
    mid
}

/// The lower-case form of `s` as `str::to_lowercase` gives it.
pub uninterp spec fn lowercase_of(s: Seq<char>) -> Seq<char>;

/// `s` in lower case (`str::to_lowercase`). Trusted: the result is the value named
/// `lowercase_of`, and a non-empty text stays non-empty (each character lowers to
/// one or more characters, as `char::to_lowercase` documents).
#[verifier::external_body]
pub(crate) fn to_lowercase(s: &str) -> (r: String)
    ensures
        r@ == lowercase_of(s@),
        s@.len() > 0 ==> r@.len() > 0,
{
    s.to_lowercase()
}

/// The lower-case form of the character `c` as `char::to_lowercase` gives it.
pub uninterp spec fn char_lowercase_of(c: char) -> Seq<char>;

/// `c` in lower case (`char::to_lowercase`, collected into a string). Trusted: the
/// result is the value named `char_lowercase_of`.
#[verifier::external_body]
fn char_to_lowercase(c: char) -> (r: String)
    ensures
        r@ == char_lowercase_of(c),
{
    c.to_lowercase().collect()
}

/// The number of bytes of the lower-case form of `c`.
pub open spec fn lowered_len(c: char) -> int {
    encode_utf8(char_lowercase_of(c)).len() as int
}

/// Lowering `content` character by character from character `i` on, where what was
/// lowered before holds `low` bytes: the index of the character whose lower-case
/// form holds byte `p` of the lowered text (the length of `content` where none does).
pub open spec fn origin_char(content: Seq<char>, p: int, i: int, low: int) -> int
    decreases content.len() - i,
{
    if i < 0 || i >= content.len() {
        content.len() as int
    } else if p < low + lowered_len(content[i]) {
        i
    } else {
        origin_char(content, p, i + 1, low + lowered_len(content[i]))
    }
}

/// The byte offset in `content` of the character that byte `p` of its lower-cased
/// form comes from (the length of `content` where `p` lies past that form).
pub open spec fn origin_offset(content: Seq<char>, p: int) -> int {
    encode_utf8(content.take(origin_char(content, p, 0, 0))).len() as int
}

/// The byte offset in `content` of the character that byte `p` of its lower-cased
/// form comes from, found by lowering `content` character by character.
fn origin_of(content: &str, p: usize) -> (r: usize)
    ensures
        r == origin_offset(content@, p as int),
{
    let n = content.unicode_len();
    let mut i: usize = 0;
    let mut low: usize = 0;
    while i < n
        invariant
            n == content@.len(),
            i <= n,
            low <= p,
            origin_char(content@, p as int, 0, 0) == origin_char(content@, p as int, i as int, low as int),
        decreases n - i,
    {
        let lowered = char_to_lowercase(content.get_char(i));
        let l = lowered.as_str().as_bytes().len();
        if p - low < l {
            let head = content.substring_char(0, i);
            return head.as_bytes().len();
        }
        low = low + l;
        i = i + 1;
    }
    let head = content.substring_char(0, n);
    head.as_bytes().len()
}

/// The starts of the non-overlapping occurrences of `needle` in `hay` from `pos` on,
/// each found leftmost after the previous one ends (as `str::match_indices`); none
/// for an empty needle.
pub open spec fn matches_from(hay: Seq<u8>, needle: Seq<u8>, pos: int) -> Seq<int>
    decreases hay.len() - pos,
{
    if needle.len() == 0 || pos < 0 || pos + needle.len() > hay.len() {
        seq![]
    } else if hay.subrange(pos, pos + needle.len()) == needle {
        seq![pos] + matches_from(hay, needle, pos + needle.len())
    } else {
        matches_from(hay, needle, pos + 1)
    }
}

/// `needle` occurs in `hay`.
pub open spec fn contains_bytes(hay: Seq<u8>, needle: Seq<u8>) -> bool {
    exists|i: int| 0 <= i && i + needle.len() <= hay.len() && #[trigger] hay.subrange(i, i + needle.len()) == needle
}

fn bytes_match_at(hay: &[u8], pos: usize, needle: &[u8]) -> (r: bool)
    requires
        pos + needle@.len() <= hay@.len(),
    ensures
        r == (hay@.subrange(pos as int, pos + needle@.len()) == needle@),
{
    let hl = hay.len();
    let mut j: usize = 0;
    while j < needle.len()
        invariant
            hl == hay@.len(),
            pos + needle@.len() <= hay@.len(),
            j <= needle@.len(),
            forall|k: int| 0 <= k < j ==> hay@[pos + k] == needle@[k],
        decreases needle@.len() - j,
    {
        if hay[pos + j] != needle[j] {
            proof {
                assert(hay@.subrange(pos as int, pos + needle@.len())[j as int] != needle@[j as int]);
            }
            return false;
        }
        j = j + 1;
    }
    assert(hay@.subrange(pos as int, pos + needle@.len()) =~= needle@);
    true
}

/// The starts of the non-overlapping occurrences of `needle` in `hay`.
pub fn find_all(hay: &[u8], needle: &[u8]) -> (r: Vec<usize>)
    ensures
        r@.map_values(|x: usize| x as int) == matches_from(hay@, needle@, 0),
{
    let mut out: Vec<usize> = Vec::new();
    let n = needle.len();
    if n == 0 {
        proof {
            assert(out@.map_values(|x: usize| x as int) =~= Seq::<int>::empty());
        }
        return out;
    }
    let h = hay.len();
    let mut pos: usize = 0;
    while pos <= h && h - pos >= n
        invariant
            n == needle@.len(),
            n > 0,
            h == hay@.len(),
            pos <= h + 1,
            out@.map_values(|x: usize| x as int) + matches_from(hay@, needle@, pos as int) == matches_from(hay@, needle@, 0),
        decreases h + 1 - pos,
    {
        let ghost before = out@;
        if bytes_match_at(hay, pos, needle) {
            out.push(pos);
            proof {
                assert(out@.map_values(|x: usize| x as int) =~= before.map_values(|x: usize| x as int).push(pos as int));
            }
            pos = pos + n;
        } else {
            pos = pos + 1;
        }
    }
    proof {
        assert(out@.map_values(|x: usize| x as int) + Seq::<int>::empty() =~= out@.map_values(|x: usize| x as int));
    }
    out
}

/// Whether `needle` occurs in `hay`.
pub fn bytes_contain(hay: &[u8], needle: &[u8]) -> (r: bool)
    ensures
        r == contains_bytes(hay@, needle@),
{
    let n = needle.len();
    let h = hay.len();
    if n > h {
        return false;
    }
    let mut pos: usize = 0;
    while pos <= h - n
        invariant
            n == needle@.len(),
            h == hay@.len(),
            n <= h,
            pos <= h - n + 1,
            forall|i: int| 0 <= i < pos ==> #[trigger] hay@.subrange(i, i + n) != needle@,
        decreases h - n + 1 - pos,
    {
        if bytes_match_at(hay, pos, needle) {
            return true;
        }
        if pos == h - n {
            return false;
        }
        pos = pos + 1;
    }
    false
}

/// The text ends with `.md`.
pub open spec fn ends_with_md(s: Seq<char>) -> bool {
    s.len() >= 3 && s.subrange(s.len() - 3, s.len() as int) == ".md"@
}

/// `s` with every trailing `.md` removed (`trim_end_matches(".md")`).
pub open spec fn strip_md(s: Seq<char>) -> Seq<char>
    decreases s.len(),
{
    if ends_with_md(s) {
        strip_md(s.subrange(0, s.len() - 3))
    } else {
        s
    }
}

fn chars_end_with_md(s: &str, n: usize) -> (r: bool)
    requires
        n <= s@.len(),
    ensures
        r == ends_with_md(s@.subrange(0, n as int)),
{
    proof {
        reveal_strlit(".md");
    }
    if n < 3 {
        return false;
    }
    let ghost t = s@.subrange(0, n as int);
    let r = s.get_char(n - 3) == '.' && s.get_char(n - 2) == 'm' && s.get_char(n - 1) == 'd';
    proof {
        if r {
            assert(t.subrange(t.len() - 3, t.len() as int) =~= ".md"@);
        } else {
            if t.subrange(t.len() - 3, t.len() as int) == ".md"@ {
                assert(t.subrange(t.len() - 3, t.len() as int)[0] == '.');
                assert(t.subrange(t.len() - 3, t.len() as int)[1] == 'm');
                assert(t.subrange(t.len() - 3, t.len() as int)[2] == 'd');
            }
        }
    }
    r
}

/// Whether `name` ends with `.md`.
pub fn is_markdown_name(name: &str) -> (r: bool)
    ensures
        r == ends_with_md(name@),
{
    let n = name.unicode_len();
    proof {
        assert(name@.subrange(0, n as int) =~= name@);
    }
    chars_end_with_md(name, n)
}

/// `name` without its trailing `.md` suffixes: the date of a daily memory file.
pub fn date_of(name: &str) -> (r: &str)
    ensures
        r@ == strip_md(name@),
{
    let mut n = name.unicode_len();
    proof {
        assert(name@.subrange(0, n as int) =~= name@);
    }
    while chars_end_with_md(name, n)
        invariant
            n <= name@.len(),
            strip_md(name@) == strip_md(name@.subrange(0, n as int)),
        decreases n,
    {
        proof {
            assert(name@.subrange(0, n as int).subrange(0, n - 3) =~= name@.subrange(0, n - 3));
        }
        n = n - 3;
    }
    name.substring_char(0, n)
}

/// The first 200 characters of `content`.
pub open spec fn preview_of(content: Seq<char>) -> Seq<char> {
    content.take(if content.len() < 200 { content.len() as int } else { 200 })
}

/// The first 200 characters of `content`.
pub fn preview(content: &str) -> (r: &str)
    ensures
        r@ == preview_of(content@),
{
    let n = content.unicode_len();
    let m = if n < 200 {
        n
    } else {
        200
    };
    content.substring_char(0, m)
}


/// A file of the daily memory directory as read: its name, its content (empty where
/// it could not be read as text), its size and its modification time in seconds
/// since the Unix epoch (0 where unknown).
#[derive(Debug)]
pub struct DailyMemoryFileData {
    pub name: String,
    pub content: String,
    pub size_bytes: u64,
    pub modified_at: u64,
}

/// A daily memory file as listed.
#[derive(Debug)]
pub struct DailyMemoryFileInfo {
    pub filename: String,
    pub date: String,
    pub size_bytes: u64,
    pub modified_at: u64,
    pub preview: String,
}

/// A listed daily memory file as text.
pub struct FileInfoView {
    pub filename: Seq<char>,
    pub date: Seq<char>,
    pub size_bytes: u64,
    pub modified_at: u64,
    pub preview: Seq<char>,
}

impl View for DailyMemoryFileInfo {
    type V = FileInfoView;

    open spec fn view(&self) -> FileInfoView {
        FileInfoView {
            filename: self.filename@,
            date: self.date@,
            size_bytes: self.size_bytes,
            modified_at: self.modified_at,
            preview: self.preview@,
        }
    }
}

impl Keyed for DailyMemoryFileInfo {
    open spec fn key(&self) -> Seq<char> {
        self.filename@
    }

    fn key_str(&self) -> (r: &str) {
        self.filename.as_str()
    }
}

/// How a daily memory file is listed: its name, its date, size and time, and the
/// first 200 characters of its content.
pub open spec fn info_of(f: DailyMemoryFileData) -> FileInfoView {
    FileInfoView {
        filename: f.name@,
        date: strip_md(f.name@),
        size_bytes: f.size_bytes,
        modified_at: f.modified_at,
        preview: preview_of(f.content@),
    }
}

/// The listing of the Markdown files among `files`, in their order.
pub open spec fn listed_infos(files: Seq<DailyMemoryFileData>) -> Seq<FileInfoView>
    decreases files.len(),
{
    if files.len() == 0 {
        seq![]
    } else {
        let prev = listed_infos(files.drop_last());
        if ends_with_md(files.last().name@) {
            prev.push(info_of(files.last()))
        } else {
            prev
        }
    }
}

/// The key a listing is sorted by.
pub open spec fn info_filename() -> spec_fn(FileInfoView) -> Seq<char> {
    |v: FileInfoView| v.filename
}

/// The views of listed files.
pub open spec fn infos_view(s: Seq<DailyMemoryFileInfo>) -> Seq<FileInfoView> {
    s.map_values(|x: DailyMemoryFileInfo| x@)
}

/// `v` is the listing entry of one of the Markdown files among `files`.
pub open spec fn entry_of_some(files: Seq<DailyMemoryFileData>, v: FileInfoView) -> bool {
    exists|j: int| 0 <= j < files.len() && ends_with_md(files[j].name@) && v == info_of(#[trigger] files[j])
}

proof fn lemma_listed_infos(files: Seq<DailyMemoryFileData>)
    ensures
        forall|k: int| 0 <= k < listed_infos(files).len() ==> entry_of_some(files, #[trigger] listed_infos(files)[k]),
        forall|j: int|
            0 <= j < files.len() && ends_with_md(files[j].name@) ==> listed_infos(files).contains(
                info_of(#[trigger] files[j]),
            ),
    decreases files.len(),
{
    if files.len() > 0 {
        let d = files.drop_last();
        let prev = listed_infos(d);
        let cur = listed_infos(files);
        lemma_listed_infos(d);
        assert forall|k: int| 0 <= k < cur.len() implies entry_of_some(files, #[trigger] cur[k]) by {
            if k < prev.len() {
                assert(cur[k] == prev[k]);
                assert(entry_of_some(d, prev[k]));
                let j = choose|j: int| 0 <= j < d.len() && ends_with_md(d[j].name@) && prev[k] == info_of(#[trigger] d[j]);
                assert(files[j] == d[j]);
            } else {
                let j = files.len() - 1;
                assert(files[j] == files.last());
                assert(cur[k] == info_of(files[j]));
            }
        }
        assert forall|j: int| 0 <= j < files.len() && ends_with_md(files[j].name@) implies cur.contains(
            info_of(#[trigger] files[j]),
        ) by {
            if j < d.len() {
                assert(files[j] == d[j]);
                assert(prev.contains(info_of(d[j])));
                let k = choose|k: int| 0 <= k < prev.len() && prev[k] == info_of(d[j]);
                assert(cur[k] == prev[k]);
            } else {
                assert(cur[cur.len() - 1] == info_of(files.last()));
            }
        }
    }
}

/// A listed file's preview is the start of its content: its first 200 characters,
/// or all of it where it is shorter; the entry keeps the file's name, size and
/// time. The listing holds exactly the Markdown files among `files`: each entry is
/// the entry of one of them, and each of them has its entry.
pub proof fn law_listing_entries(files: Seq<DailyMemoryFileData>)
    ensures
        forall|f: DailyMemoryFileData|
            {
                let v = #[trigger] info_of(f);
                &&& v.preview.len() == (if f.content@.len() < 200 {
                    f.content@.len() as int
                } else {
                    200
                })
                &&& forall|i: int| 0 <= i < v.preview.len() ==> v.preview[i] == f.content@[i]
                &&& v.filename == f.name@
                &&& v.size_bytes == f.size_bytes
                &&& v.modified_at == f.modified_at
            },
        forall|k: int|
            0 <= k < sorted_stable(listed_infos(files), info_filename(), true).len() ==> entry_of_some(
                files,
                #[trigger] sorted_stable(listed_infos(files), info_filename(), true)[k],
            ),
        forall|j: int|
            0 <= j < files.len() && ends_with_md(files[j].name@) ==> sorted_stable(
                listed_infos(files),
                info_filename(),
                true,
            ).contains(info_of(#[trigger] files[j])),
{
    let l = listed_infos(files);
    let srt = sorted_stable(l, info_filename(), true);
    lemma_listed_infos(files);
    law_sorted_stable(l, info_filename(), true);
    l.to_multiset_ensures();
    srt.to_multiset_ensures();
    assert forall|k: int| 0 <= k < srt.len() implies entry_of_some(files, #[trigger] srt[k]) by {
        assert(srt.contains(srt[k]));
        assert(srt.to_multiset().count(srt[k]) > 0);
        assert(l.to_multiset().count(srt[k]) > 0);
        assert(l.contains(srt[k]));
        let k2 = choose|k2: int| 0 <= k2 < l.len() && l[k2] == srt[k];
        assert(entry_of_some(files, l[k2]));
    }
    assert forall|j: int| 0 <= j < files.len() && ends_with_md(files[j].name@) implies srt.contains(
        info_of(#[trigger] files[j]),
    ) by {
        let v = info_of(files[j]);
        assert(l.contains(v));
        assert(l.to_multiset().count(v) > 0);
        assert(srt.to_multiset().count(v) > 0);
    }
}

/// Lists the daily memory files among the files of the memory directory: the
/// Markdown ones, newest name first.
pub fn list_daily_memory_files(files: Vec<DailyMemoryFileData>) -> (r: Vec<DailyMemoryFileInfo>)
    ensures
        infos_view(r@) == sorted_stable(listed_infos(files@), info_filename(), true),
{
    let mut out: Vec<DailyMemoryFileInfo> = Vec::new();
    let mut i: usize = 0;
    while i < files.len()
        invariant
            i <= files@.len(),
            infos_view(out@) == listed_infos(files@.take(i as int)),
        decreases files@.len() - i,
    {
        let f = &files[i];
        proof {
            assert(files@.take(i + 1).drop_last() =~= files@.take(i as int));
            assert(files@.take(i + 1).last() == files@[i as int]);
        }
        let ghost before = out@;
        if is_markdown_name(f.name.as_str()) {
            let info = DailyMemoryFileInfo {
                filename: f.name.clone(),
                date: date_of(f.name.as_str()).to_owned(),
                size_bytes: f.size_bytes,
                modified_at: f.modified_at,
                preview: preview(f.content.as_str()).to_owned(),
            };
            out.push(info);
            proof {
                assert(infos_view(out@) =~= infos_view(before).push(info@));
            }
        }
        i = i + 1;
    }
    proof {
        assert(files@.take(files@.len() as int) =~= files@);
    }
    let ghost unsorted = out@;
    let sorted = sort_stable(out, true);
    proof {
        lemma_sorted_map(
            unsorted,
            |x: DailyMemoryFileInfo| x@,
            key_of::<DailyMemoryFileInfo>(),
            info_filename(),
            true,
        );
    }
    sorted
}

/// A search hit among the daily memory files.
#[derive(Debug)]
pub struct DailyMemorySearchResult {
    pub filename: String,
    pub date: String,
    pub size_bytes: u64,
    pub modified_at: u64,
    pub snippet: String,
    pub match_count: usize,
}

/// A search hit as text.
pub struct SearchResultView {
    pub filename: Seq<char>,
    pub date: Seq<char>,
    pub size_bytes: u64,
    pub modified_at: u64,
    pub snippet: Seq<char>,
    pub match_count: nat,
}

impl View for DailyMemorySearchResult {
    type V = SearchResultView;

    open spec fn view(&self) -> SearchResultView {
        SearchResultView {
            filename: self.filename@,
            date: self.date@,
            size_bytes: self.size_bytes,
            modified_at: self.modified_at,
            snippet: self.snippet@,
            match_count: self.match_count as nat,
        }
    }
}

impl Keyed for DailyMemorySearchResult {
    open spec fn key(&self) -> Seq<char> {
        self.filename@
    }

    fn key_str(&self) -> (r: &str) {
        self.filename.as_str()
    }
}

/// `...` where `cond` holds, nothing otherwise.
pub open spec fn ellipsis_if(cond: bool) -> Seq<char> {
    if cond {
        "..."@
    } else {
        seq![]
    }
}

/// The snippet shown for a file whose content is `content` and whose lower-cased
/// content has matches starting at the byte offsets `positions`: around the first
/// match, whose start is traced back to the character of `content` it comes from,
/// from 50 bytes before that character (back to a character boundary) to 70 bytes
/// after its start (on to one), with `...` where text is cut off; for a match of
/// the date alone, the first 120 bytes (on to a boundary).
pub open spec fn snippet_of(content: Seq<char>, positions: Seq<int>) -> Seq<char> {
    let b = encode_utf8(content);
    let len = b.len() as int;
    if positions.len() > 0 {
        let first = origin_offset(content, positions[0]);
        let start = if first > 50 {
            floor_boundary(b, first - 50)
        } else {
            0
        };
        let end = ceil_boundary(b, if first + 70 < len { first + 70 } else { len });
        ellipsis_if(start > 0) + decode_utf8(b.subrange(start, end)) + ellipsis_if(end < len)
    } else {
        let end = ceil_boundary(b, if 120 < len { 120 } else { len });
        decode_utf8(b.subrange(0, end)) + ellipsis_if(end < len)
    }
}

/// The snippet for the match starts `positions` is the content of `content` between
/// the byte offsets `start` and `end`, both character boundaries, with `...` before
/// it exactly when `start` is not the beginning and after it exactly when `end` is
/// not the end. `end` is the first boundary at or after 70 bytes past the start of
/// the matched character (120 bytes into the content for a date-only match), or the
/// end of the content; `start` is the last boundary at or before 50 bytes ahead of
/// the matched character, or the beginning where that character lies within the
/// first 50 bytes.
pub open spec fn snippet_window(content: Seq<char>, positions: Seq<int>, start: int, end: int) -> bool {
    let b = encode_utf8(content);
    let len = b.len() as int;
    let p = if positions.len() > 0 {
        origin_offset(content, positions[0])
    } else {
        0
    };
    let hi = if positions.len() > 0 {
        if p + 70 < len {
            p + 70
        } else {
            len
        }
    } else if 120 < len {
        120
    } else {
        len
    };
    &&& 0 <= start <= end <= len
    &&& is_char_boundary(b, start)
    &&& is_char_boundary(b, end)
    &&& snippet_of(content, positions) == (if start > 0 {
        "..."@
    } else {
        seq![]
    }) + decode_utf8(b.subrange(start, end)) + (if end < len {
        "..."@
    } else {
        seq![]
    })
    &&& hi <= end
    &&& forall|j: int| hi <= j < end ==> !is_char_boundary(b, j)
    &&& if positions.len() > 0 && p > 50 {
        if p - 50 < len {
            start <= p - 50 && forall|j: int| start < j <= p - 50 ==> !is_char_boundary(b, j)
        } else {
            start == len
        }
    } else {
        start == 0
    }
}

/// A search snippet shows the content around the first match and no more: it runs
/// from the last character boundary at or before 50 bytes ahead of the matched
/// character to the first boundary at or after 70 bytes past it, with `...` exactly
/// where the content goes on (see `snippet_window`).
pub proof fn law_snippet_window(content: Seq<char>, positions: Seq<int>)
    ensures
        exists|start: int, end: int| #[trigger] snippet_window(content, positions, start, end),
{
    let b = encode_utf8(content);
    let len = b.len() as int;
    vstd::utf8::encode_utf8_valid_utf8(content);
    vstd::utf8::is_char_boundary_start_end_of_seq(b);
    if positions.len() > 0 {
        let p = origin_offset(content, positions[0]);
        let start = if p > 50 {
            floor_boundary(b, p - 50)
        } else {
            0
        };
        let hi = if p + 70 < len {
            p + 70
        } else {
            len
        };
        let end = ceil_boundary(b, hi);
        if p > 50 {
            lemma_floor_boundary(b, p - 50);
        }
        lemma_ceil_boundary(b, hi);
        assert(snippet_window(content, positions, start, end));
    } else {
        let hi = if 120 < len {
            120
        } else {
            len
        };
        let end = ceil_boundary(b, hi);
        lemma_ceil_boundary(b, hi);
        assert(snippet_window(content, positions, 0, end));
    }
}

/// The hit for file `f` when searching for the lower-cased query `query_lower`: for
/// a Markdown file whose lower-cased content or date holds the query, its name,
/// date, size, time, snippet and number of matches in the content.
pub open spec fn search_hit(query_lower: Seq<char>, f: DailyMemoryFileData) -> Option<SearchResultView> {
    if !ends_with_md(f.name@) {
        None
    } else {
        let date = strip_md(f.name@);
        let q = encode_utf8(query_lower);
        let positions = matches_from(encode_utf8(lowercase_of(f.content@)), q, 0);
        let date_match = contains_bytes(encode_utf8(lowercase_of(date)), q);
        if positions.len() == 0 && !date_match {
            None
        } else {
            Some(
                SearchResultView {
                    filename: f.name@,
                    date,
                    size_bytes: f.size_bytes,
                    modified_at: f.modified_at,
                    snippet: snippet_of(f.content@, positions),
                    match_count: positions.len(),
                },
            )
        }
    }
}

/// The hits among `files`, in their order.
pub open spec fn search_hits(query_lower: Seq<char>, files: Seq<DailyMemoryFileData>) -> Seq<SearchResultView>
    decreases files.len(),
{
    if files.len() == 0 {
        seq![]
    } else {
        let prev = search_hits(query_lower, files.drop_last());
        match search_hit(query_lower, files.last()) {
            Some(h) => prev.push(h),
            None => prev,
        }
    }
}

/// The key hits are sorted by.
pub open spec fn hit_filename() -> spec_fn(SearchResultView) -> Seq<char> {
    |v: SearchResultView| v.filename
}

/// The views of hits.
pub open spec fn hits_view(s: Seq<DailyMemorySearchResult>) -> Seq<SearchResultView> {
    s.map_values(|x: DailyMemorySearchResult| x@)
}

/// What searching for `query` finds: nothing for an empty query; otherwise the
/// hits for the lower-cased query, newest name first.
pub open spec fn search_outcome(query: Seq<char>, files: Seq<DailyMemoryFileData>) -> Seq<SearchResultView> {
    if query.len() == 0 {
        seq![]
    } else {
        sorted_stable(search_hits(lowercase_of(query), files), hit_filename(), true)
    }
}

fn snippet_for(content: &str, positions: &Vec<usize>) -> (r: String)
    ensures
        r@ == snippet_of(content@, positions@.map_values(|x: usize| x as int)),
{
    let ghost b = content.spec_bytes();
    let len = byte_len(content);
    proof {
        vstd::utf8::encode_utf8_valid_utf8(content@);
    }
    let dots = "...";
    proof {
        reveal_strlit("...");
    }
    let mut out = String::new();
    if positions.len() > 0 {
        assert(positions@.map_values(|x: usize| x as int)[0] == positions[0] as int);
        let first = origin_of(content, positions[0]);
        let start = if first > 50 {
            floor_char_boundary(content, first - 50)
        } else {
            0
        };
        let upto = if first >= len || len - first <= 70 {
            len
        } else {
            first + 70
        };
        let end = ceil_char_boundary(content, upto);
        proof {
            if first > 50 {
                lemma_floor_boundary(b, first - 50);
            }
            lemma_ceil_boundary(b, upto as int);
            vstd::utf8::is_char_boundary_start_end_of_seq(b);
        }
        if start > 0 {
            out.append(dots);
        }
        out.append(byte_slice(content, start, end));
        if end < len {
            out.append(dots);
        }
    } else {
        let upto = if len < 120 {
            len
        } else {
            120
        };
        let end = ceil_char_boundary(content, upto);
        proof {
            lemma_ceil_boundary(b, upto as int);
            vstd::utf8::is_char_boundary_start_end_of_seq(b);
        }
        out.append(byte_slice(content, 0, end));
        if end < len {
            out.append(dots);
        }
    }
    out
}

/// The hit for file `f`, if any, when searching for the lower-cased query
/// `query_lower` (not empty).
pub fn search_daily_memory_file(query_lower: &str, f: DailyMemoryFileData) -> (r: Option<DailyMemorySearchResult>)
    ensures
        match r {
            Some(h) => search_hit(query_lower@, f) == Some(h@),
            None => search_hit(query_lower@, f) is None,
        },
{
    if !is_markdown_name(f.name.as_str()) {
        return None;
    }
    let date = date_of(f.name.as_str()).to_owned();
    let q = query_lower.as_bytes();
    let content_lower = to_lowercase(f.content.as_str());
    let positions = find_all(content_lower.as_str().as_bytes(), q);
    let date_lower = to_lowercase(date.as_str());
    let date_match = bytes_contain(date_lower.as_str().as_bytes(), q);
    if positions.len() == 0 && !date_match {
        return None;
    }
    let snippet = snippet_for(f.content.as_str(), &positions);
    let hit = DailyMemorySearchResult {
        filename: f.name,
        date,
        size_bytes: f.size_bytes,
        modified_at: f.modified_at,
        snippet,
        match_count: positions.len(),
    };
    Some(hit)
}

/// Searches the files of the memory directory for `query`, ignoring case, in their
/// content and in their date; the hits come newest name first.
pub fn search_daily_memory_files(query: &str, files: Vec<DailyMemoryFileData>) -> (r: Vec<DailyMemorySearchResult>)
    ensures
        hits_view(r@) == search_outcome(query@, files@),
{
    if query.is_empty() {
        proof {
            assert(hits_view(Seq::<DailyMemorySearchResult>::empty()) =~= Seq::<SearchResultView>::empty());
        }
        return Vec::new();
    }
    let query_lower = to_lowercase(query);
    let ghost ql = query_lower@;
    let mut rest = files;
    let ghost orig = rest@;
    let mut out: Vec<DailyMemorySearchResult> = Vec::new();
    let ghost mut k: int = 0;
    while rest.len() > 0
        invariant
            0 <= k <= orig.len(),
            ql == query_lower@,
            rest@ == orig.skip(k),
            hits_view(out@) == search_hits(ql, orig.take(k)),
        decreases rest@.len(),
    {
        let f = rest.remove(0);
        proof {
            assert(f == orig[k]);
            assert(orig.take(k + 1).drop_last() =~= orig.take(k));
            assert(orig.take(k + 1).last() == orig[k]);
        }
        let ghost before = out@;
        match search_daily_memory_file(query_lower.as_str(), f) {
            Some(h) => {
                out.push(h);
                proof {
                    assert(hits_view(out@) =~= hits_view(before).push(h@));
                }
            },
            None => {},
        }
        proof {
            assert(rest@ =~= orig.skip(k + 1));
            k = k + 1;
        }
    }
    proof {
        assert(orig.take(k) =~= orig);
    }
    let ghost unsorted = out@;
    let sorted = sort_stable(out, true);
    proof {
        lemma_sorted_map(
            unsorted,
            |x: DailyMemorySearchResult| x@,
            key_of::<DailyMemorySearchResult>(),
            hit_filename(),
            true,
        );
    }
    sorted
}

} // verus!
