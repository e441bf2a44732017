//! Scanning the phone over MLSD: which listing lines become backup candidates, and which
//! directories are visited next.

use vstd::prelude::*;
use vstd::hash_set::StringHashSet;
use crate::diff::FileEntry;
use crate::error::AlbumError;
use crate::text::{
    ascii_lower, chars_of, clone_strings, find_char, find_char_from, has_prefix, leading_slashes_end,
    lower_seq, push_char, push_range, push_str, string_of_range, texts, to_ascii_lower,
    trailing_slashes_start, trim_leading_slashes, trim_trailing_slashes,
};

verus! {

// ---------------------------------------------------------------------------------------
// Outside crates: glob patterns and MLSD lines
// ---------------------------------------------------------------------------------------

/// What `glob::Pattern::new` makes of a pattern: `None` when it compiles, otherwise the
/// rendered `PatternError`. A `**` must stand between separators, and what a separator is
/// depends on the build target (see `glob_matches`).
pub uninterp spec fn glob_compile(pattern: Seq<char>) -> Option<Seq<char>>;

/// Whether the compiled `pattern` matches `path` (`glob::Pattern::matches`, default options).
/// What a separator is depends on the build target: on Windows `glob` takes `\` as one too,
/// elsewhere only `/`; within one build the name stands for one function.
pub uninterp spec fn glob_matches(pattern: Seq<char>, path: Seq<char>) -> bool;

/// Compiles a glob pattern with `glob::Pattern::new` and reports the error text, if any.
/// The result is a function of the pattern alone; it is named `glob_compile`.
#[verifier::external_body]
fn glob_check(pattern: &str) -> (r: Option<String>)
    ensures
        r is None <==> glob_compile(pattern@) is None,
        r matches Some(m) ==> glob_compile(pattern@) == Some(m@),
{
    match glob::Pattern::new(pattern) {
        Ok(_) => None,
        Err(e) => Some(e.to_string()),
    }
}

/// Compiles `pattern` with `glob::Pattern::new` and, when it compiles, matches `path` with
/// `glob::Pattern::matches`. Named `glob_matches`; an uncompilable pattern matches nothing.
#[verifier::external_body]
fn glob_match(pattern: &str, path: &str) -> (r: bool)
    ensures
        glob_compile(pattern@) is None ==> r == glob_matches(pattern@, path@),
        glob_compile(pattern@) is Some ==> !r,
{
    match glob::Pattern::new(pattern) {
        Ok(p) => p.matches(path),
        Err(_) => false,
    }
}

/// The kind of a listed entry.
#[derive(Debug, Clone, Copy, PartialEq, Eq, Structural)]
pub enum EntryKind {
    Directory,
    File,
    Symlink,
}

/// The fields of one parsed MLSD line that the scan reads.
#[derive(Debug)]
pub struct MlsdEntry {
    pub name: String,
    pub kind: EntryKind,
    pub size: u64,
    /// Seconds from the Unix epoch to the modification time, when that is not before it.
    pub modified: Option<u64>,
}

pub struct MlsdView {
    pub name: Seq<char>,
    pub kind: EntryKind,
    pub size: u64,
    pub modified: Option<u64>,
}

impl View for MlsdEntry {
    type V = MlsdView;

    open spec fn view(&self) -> MlsdView {
        MlsdView { name: self.name@, kind: self.kind, size: self.size, modified: self.modified }
    }
}

/// A character that UTF-8 writes in one byte.
pub open spec fn is_ascii_char(c: char) -> bool {
    (c as u32) < 0x80
}

pub open spec fn all_ascii(s: Seq<char>) -> bool {
    forall|i: int| 0 <= i < s.len() ==> is_ascii_char(#[trigger] s[i])
}

/// Bytes that UTF-8 takes for `c`.
pub open spec fn utf8_width(c: char) -> nat {
    if (c as u32) < 0x80 {
        1
    } else if (c as u32) < 0x800 {
        2
    } else if (c as u32) < 0x10000 {
        3
    } else {
        4
    }
}

/// Bytes that UTF-8 takes for `s` (what `str::len` gives).
pub open spec fn utf8_len(s: Seq<char>) -> nat
    decreases s.len(),
{
    if s.len() == 0 {
        0
    } else {
        utf8_len(s.drop_last()) + utf8_width(s.last())
    }
}

/// A `unix.mode` value that the parser cuts apart: it checks only that the value is 3 or 4
/// bytes long and then reads its last three bytes as three characters, which panics unless
/// they are ASCII. Of the values of 3 or 4 bytes, exactly the non-ASCII ones break it.
pub open spec fn mode_value_breaks(v: Seq<char>) -> bool {
    !all_ascii(v) && (utf8_len(v) == 3 || utf8_len(v) == 4)
}

/// The key of the fact `t` (the text before its first `=`) and its value (from there to the
/// next `=` or the end), as the parser splits it; `None` when `t` has no `=`.
pub open spec fn fact_parts(t: Seq<char>) -> Option<(Seq<char>, Seq<char>)> {
    match find_char_from(t, '=', 0) {
        None => None,
        Some(e) => {
            let value_end = match find_char_from(t, '=', e + 1) {
                None => t.len() as int,
                Some(v) => v,
            };
            Some((t.take(e), t.subrange(e + 1, value_end)))
        },
    }
}

/// The parser compares keys lower-cased. Lower-casing a non-ASCII character never gives one
/// of the ASCII letters of the keys below (only the Kelvin sign turns into an ASCII letter,
/// `k`), so for these keys ASCII lower-casing decides.
pub open spec fn key_is(key: Seq<char>, name: Seq<char>) -> bool {
    lower_seq(key) == name
}

pub open spec fn mode_key() -> Seq<char> {
    seq!['u', 'n', 'i', 'x', '.', 'm', 'o', 'd', 'e']
}

pub open spec fn type_key() -> Seq<char> {
    seq!['t', 'y', 'p', 'e']
}

pub open spec fn size_key() -> Seq<char> {
    seq!['s', 'i', 'z', 'e']
}

pub open spec fn is_ascii_digit(c: char) -> bool {
    '0' <= c && c <= '9'
}

/// A `type` value that the parser refuses for sure: ASCII, and none of `dir`, `cdir`,
/// `pdir`, `file`, `link` up to case.
pub open spec fn type_value_rejected(v: Seq<char>) -> bool {
    all_ascii(v) && lower_seq(v) != seq!['d', 'i', 'r'] && lower_seq(v) != seq!['c', 'd', 'i', 'r']
        && lower_seq(v) != seq!['p', 'd', 'i', 'r'] && lower_seq(v) != seq!['f', 'i', 'l', 'e']
        && lower_seq(v) != seq!['l', 'i', 'n', 'k']
}

/// A `size` value that `usize::from_str` refuses for sure: empty, a lone `+`, or a character
/// other than a digit (a `+` may only lead).
pub open spec fn size_value_rejected(v: Seq<char>) -> bool {
    v.len() == 0 || v == seq!['+'] || exists|j: int|
        0 <= j < v.len() && !is_ascii_digit(#[trigger] v[j]) && !(j == 0 && v[j] == '+')
}

/// Reading the fact `t` panics.
pub open spec fn fact_breaks(t: Seq<char>) -> bool {
    match fact_parts(t) {
        Some((k, v)) => key_is(k, mode_key()) && mode_value_breaks(v),
        None => false,
    }
}

/// Reading the fact `t` ends the parse with an error (a bad `type`, a bad `size`, or a
/// `unix.mode` value of a length other than 3 or 4 bytes). A `modify` value that does not
/// read as a time ends it too; that case is not counted here.
pub open spec fn fact_rejected(t: Seq<char>) -> bool {
    match fact_parts(t) {
        Some((k, v)) => (key_is(k, type_key()) && type_value_rejected(v)) || (key_is(k, size_key())
            && size_value_rejected(v)) || (key_is(k, mode_key()) && utf8_len(v) != 3 && utf8_len(v) != 4),
        None => false,
    }
}

/// The parser, reading the facts of `s` in order from the one that starts at `a` (scanned
/// up to `i`), stops with an error or reaches the end before a fact that panics.
pub open spec fn facts_safe_from(s: Seq<char>, a: int, i: int) -> bool
    decreases s.len() - i,
{
    if i >= s.len() {
        !fact_breaks(s.subrange(a, s.len() as int))
    } else if s[i] == ';' {
        !fact_breaks(s.subrange(a, i)) && (fact_rejected(s.subrange(a, i)) || facts_safe_from(s, i + 1, i + 1))
    } else {
        facts_safe_from(s, a, i + 1)
    }
}

/// `suppaftp` parses the MLSD line `s` without a panic. Of the errors that end a parse
/// early, a `modify` value that is not a time is not taken into account.
pub open spec fn mlsd_line_safe(s: Seq<char>) -> bool {
    facts_safe_from(s, 0, 0)
}

/// What `suppaftp::list::ListParser::parse_mlsd` makes of a line (`None`: it does not parse).
pub uninterp spec fn mlsd_parse(line: Seq<char>) -> Option<MlsdView>;

/// Parses one MLSD line with `suppaftp::list::ListParser::parse_mlsd`. The result depends on
/// the line alone (times are read as UTC) and is named `mlsd_parse`.
/// On a line where a `unix.mode` value of 3 or 4 bytes is not ASCII the parser panics; such
/// lines are left out by `requires`.
#[verifier::external_body]
fn parse_mlsd_line(line: &str) -> (r: Option<MlsdEntry>)
    requires
        mlsd_line_safe(line@),
    ensures
        r is None <==> mlsd_parse(line@) is None,
        r matches Some(e) ==> mlsd_parse(line@) == Some(e@),
{
    match suppaftp::list::ListParser::parse_mlsd(line) {
        Ok(f) => Some(MlsdEntry {
            name: f.name().to_string(),
            kind: if f.is_directory() {
                EntryKind::Directory
            } else if f.is_file() {
                EntryKind::File
            } else {
                EntryKind::Symlink
            },
            size: f.size() as u64,
            modified: f.modified().duration_since(std::time::UNIX_EPOCH).ok().map(|d| d.as_secs()),
        }),
        Err(_) => None,
    }
}

fn all_ascii_range(cs: &Vec<char>, from: usize, to: usize) -> (r: bool)
    requires
        from <= to <= cs@.len(),
    ensures
        r == all_ascii(cs@.subrange(from as int, to as int)),
{
    let mut k: usize = from;
    while k < to
        invariant
            from <= k <= to <= cs@.len(),
            all_ascii(cs@.subrange(from as int, k as int)),
        decreases to - k,
    {
        if (cs[k] as u32) >= 0x80 {
            assert(cs@.subrange(from as int, to as int)[k - from] == cs@[k as int]);
            return false;
        }
        assert forall|j: int| 0 <= j < k + 1 - from implies is_ascii_char(
            #[trigger] cs@.subrange(from as int, k + 1)[j],
        ) by {
            if j < k - from {
                assert(cs@.subrange(from as int, k + 1)[j] == cs@.subrange(from as int, k as int)[j]);
            }
        }
        k = k + 1;
    }
    true
}

fn utf8_len_range(cs: &Vec<char>, from: usize, to: usize) -> (r: u128)
    requires
        from <= to <= cs@.len(),
    ensures
        r == utf8_len(cs@.subrange(from as int, to as int)),
{
    let mut total: u128 = 0;
    let mut k: usize = from;
    assert(cs@.subrange(from as int, from as int).len() == 0);
    while k < to
        invariant
            from <= k <= to <= cs@.len(),
            total == utf8_len(cs@.subrange(from as int, k as int)),
            total <= 4 * (k - from),
        decreases to - k,
    {
        let c = cs[k] as u32;
        let w: u128 = if c < 0x80 {
            1
        } else if c < 0x800 {
            2
        } else if c < 0x10000 {
            3
        } else {
            4
        };
        assert(cs@.subrange(from as int, k + 1).drop_last() =~= cs@.subrange(from as int, k as int));
        total = total + w;
        k = k + 1;
    }
    total
}

fn lower_is(v: &Vec<char>, target: &Vec<char>) -> (r: bool)
    ensures
        r == (lower_seq(v@) == target@),
{
    if v.len() != target.len() {
        assert(lower_seq(v@).len() != target@.len());
        return false;
    }
    let mut k: usize = 0;
    while k < v.len()
        invariant
            v@.len() == target@.len(),
            k <= v@.len(),
            forall|j: int| 0 <= j < k ==> ascii_lower(v@[j]) == target@[j],
        decreases v.len() - k,
    {
        let c = to_ascii_lower(v[k]);
        if c != target[k] {
            assert(lower_seq(v@)[k as int] == c);
            return false;
        }
        k = k + 1;
    }
    assert(lower_seq(v@) =~= target@);
    true
}

fn size_rejected(v: &Vec<char>) -> (r: bool)
    ensures
        r == size_value_rejected(v@),
{
    let n = v.len();
    if n == 0 {
        return true;
    }
    if n == 1 && v[0] == '+' {
        assert(v@ =~= seq!['+']);
        return true;
    }
    assert(v@ != seq!['+']) by {
        if v@ =~= seq!['+'] {
            assert(v@.len() == 1 && v@[0] == '+');
        }
    }
    let mut k: usize = 0;
    while k < n
        invariant
            n == v@.len(),
            k <= n,
            forall|j: int| 0 <= j < k ==> is_ascii_digit(#[trigger] v@[j]) || (j == 0 && v@[j] == '+'),
        decreases n - k,
    {
        let c = v[k];
        if !('0' <= c && c <= '9') && !(k == 0 && c == '+') {
            return true;
        }
        k = k + 1;
    }
    false
}

/// Whether reading the fact `t` panics, and whether it ends the parse with an error.
fn fact_verdict(t: &Vec<char>) -> (r: (bool, bool))
    ensures
        r.0 == fact_breaks(t@),
        r.1 == fact_rejected(t@),
{
    match find_char(t, '=', 0) {
        None => (false, false),
        Some(e) => {
            let tl = t.len();
            assert(e < tl);
            let value_end: usize = match find_char(t, '=', e + 1) {
                None => t.len(),
                Some(v) => v,
            };
            let key = copy_range(t, 0, e);
            let value = copy_range(t, e + 1, value_end);
            assert(key@ =~= t@.take(e as int));
            let mode = chars_of("unix.mode");
            let typ = chars_of("type");
            let size = chars_of("size");
            proof {
                reveal_strlit("unix.mode");
                reveal_strlit("type");
                reveal_strlit("size");
                assert(mode@ =~= mode_key());
                assert(typ@ =~= type_key());
                assert(size@ =~= size_key());
            }
            let vlen = utf8_len_range(&value, 0, value.len());
            let vascii = all_ascii_range(&value, 0, value.len());
            assert(value@.subrange(0, value@.len() as int) =~= value@);
            let is_mode = lower_is(&key, &mode);
            let breaks = is_mode && !vascii && (vlen == 3 || vlen == 4);
            let mode_rejected = is_mode && vlen != 3 && vlen != 4;
            let type_rejected = lower_is(&key, &typ) && vascii && !lower_is_text(&value, "dir")
                && !lower_is_text(&value, "cdir") && !lower_is_text(&value, "pdir") && !lower_is_text(&value, "file")
                && !lower_is_text(&value, "link");
            let size_bad = lower_is(&key, &size) && size_rejected(&value);
            proof {
                reveal_strlit("dir");
                reveal_strlit("cdir");
                reveal_strlit("pdir");
                reveal_strlit("file");
                reveal_strlit("link");
                assert("dir"@ =~= seq!['d', 'i', 'r']);
                assert("cdir"@ =~= seq!['c', 'd', 'i', 'r']);
                assert("pdir"@ =~= seq!['p', 'd', 'i', 'r']);
                assert("file"@ =~= seq!['f', 'i', 'l', 'e']);
                assert("link"@ =~= seq!['l', 'i', 'n', 'k']);
            }
            (breaks, type_rejected || size_bad || mode_rejected)
        },
    }
}

fn lower_is_text(v: &Vec<char>, target: &str) -> (r: bool)
    ensures
        r == (lower_seq(v@) == target@),
{
    let t = chars_of(target);
    lower_is(v, &t)
}

fn copy_range(cs: &Vec<char>, from: usize, to: usize) -> (r: Vec<char>)
    requires
        from <= to <= cs@.len(),
    ensures
        r@ == cs@.subrange(from as int, to as int),
{
    let mut r: Vec<char> = Vec::new();
    let mut k: usize = from;
    while k < to
        invariant
            from <= k <= to <= cs@.len(),
            r@ == cs@.subrange(from as int, k as int),
        decreases to - k,
    {
        r.push(cs[k]);
        assert(r@ =~= cs@.subrange(from as int, k + 1));
        k = k + 1;
    }
    r
}

/// Whether `suppaftp` can parse the MLSD line `line` without a panic (`mlsd_line_safe`).
pub fn mlsd_line_is_safe(line: &str) -> (r: bool)
    ensures
        r == mlsd_line_safe(line@),
{
    let cs = chars_of(line);
    let n = cs.len();
    let mut a: usize = 0;
    let mut i: usize = 0;
    while i < n
        invariant
            a <= i <= n,
            n == cs@.len(),
            cs@ == line@,
            mlsd_line_safe(cs@) == facts_safe_from(cs@, a as int, i as int),
        decreases n - i,
    {
        if cs[i] == ';' {
            let tok = copy_range(&cs, a, i);
            let (breaks, rejected) = fact_verdict(&tok);
            if breaks {
                return false;
            }
            if rejected {
                return true;
            }
            a = i + 1;
        }
        i = i + 1;
    }
    let tok = copy_range(&cs, a, n);
    let (breaks, _) = fact_verdict(&tok);
    !breaks
}

/// Every line of `listing`, as the scan hands it to the parser (fractions of seconds taken
/// out of `modify=`), can be parsed without a panic.
pub open spec fn listing_safe(listing: Seq<Seq<char>>) -> bool {
    forall|k: int| 0 <= k < listing.len() ==> mlsd_line_safe(strip_fraction_spec(#[trigger] listing[k]))
}

/// Whether `Walker::scan_listing` may be handed `listing` (`listing_safe`).
pub fn listing_is_safe(listing: &Vec<String>) -> (r: bool)
    ensures
        r == listing_safe(texts(listing@)),
{
    let mut k: usize = 0;
    while k < listing.len()
        invariant
            k <= listing@.len(),
            forall|j: int| 0 <= j < k ==> mlsd_line_safe(strip_fraction_spec(#[trigger] texts(listing@)[j])),
        decreases listing.len() - k,
    {
        let cleaned = strip_modify_fraction(listing[k].as_str());
        if !mlsd_line_is_safe(cleaned.as_str()) {
            assert(texts(listing@)[k as int] == listing@[k as int]@);
            return false;
        }
        assert(texts(listing@)[k as int] == listing@[k as int]@);
        k = k + 1;
    }
    true
}

// ---------------------------------------------------------------------------------------
// Media extensions
// ---------------------------------------------------------------------------------------

/// The extensions of photos and videos that are backed up.
pub open spec fn media_extension_set() -> Set<Seq<char>> {
    set![
        "jpg"@, "jpeg"@, "png"@, "heic"@, "heif"@, "webp"@, "gif"@, "bmp"@, "tiff"@, "tif"@,
        "raw"@, "dng"@, "arw"@, "cr2"@, "cr3"@, "nef"@, "orf"@, "rw2"@,
        "mp4"@, "mov"@, "3gp"@, "mkv"@, "avi"@, "m4v"@, "webm"@, "mts"@, "m2ts"@
    ]
}

fn add_ext(set: &mut StringHashSet, e: &str)
    ensures
        final(set)@ == old(set)@.insert(e@),
{
    set.insert(String::from_str(e));
}

/// The set of media extensions (lower case, without the dot).
pub fn media_extensions() -> (r: StringHashSet)
    ensures
        r@ == media_extension_set(),
{
    let mut s = StringHashSet::new();
    add_ext(&mut s, "jpg");
    add_ext(&mut s, "jpeg");
    add_ext(&mut s, "png");
    add_ext(&mut s, "heic");
    add_ext(&mut s, "heif");
    add_ext(&mut s, "webp");
    add_ext(&mut s, "gif");
    add_ext(&mut s, "bmp");
    add_ext(&mut s, "tiff");
    add_ext(&mut s, "tif");
    add_ext(&mut s, "raw");
    add_ext(&mut s, "dng");
    add_ext(&mut s, "arw");
    add_ext(&mut s, "cr2");
    add_ext(&mut s, "cr3");
    add_ext(&mut s, "nef");
    add_ext(&mut s, "orf");
    add_ext(&mut s, "rw2");
    add_ext(&mut s, "mp4");
    add_ext(&mut s, "mov");
    add_ext(&mut s, "3gp");
    add_ext(&mut s, "mkv");
    add_ext(&mut s, "avi");
    add_ext(&mut s, "m4v");
    add_ext(&mut s, "webm");
    add_ext(&mut s, "mts");
    add_ext(&mut s, "m2ts");
    assert(s@ =~= media_extension_set());
    s
}

/// The photos and videos that are backed up: each of these extensions is in the set.
pub proof fn law_media_extensions_listed()
    ensures
        media_extension_set().contains("jpg"@),
        media_extension_set().contains("jpeg"@),
        media_extension_set().contains("png"@),
        media_extension_set().contains("heic"@),
        media_extension_set().contains("heif"@),
        media_extension_set().contains("webp"@),
        media_extension_set().contains("gif"@),
        media_extension_set().contains("bmp"@),
        media_extension_set().contains("tiff"@),
        media_extension_set().contains("tif"@),
        media_extension_set().contains("raw"@),
        media_extension_set().contains("dng"@),
        media_extension_set().contains("arw"@),
        media_extension_set().contains("cr2"@),
        media_extension_set().contains("cr3"@),
        media_extension_set().contains("nef"@),
        media_extension_set().contains("orf"@),
        media_extension_set().contains("rw2"@),
        media_extension_set().contains("mp4"@),
        media_extension_set().contains("mov"@),
        media_extension_set().contains("3gp"@),
        media_extension_set().contains("mkv"@),
        media_extension_set().contains("avi"@),
        media_extension_set().contains("m4v"@),
        media_extension_set().contains("webm"@),
        media_extension_set().contains("mts"@),
        media_extension_set().contains("m2ts"@),
{
    reveal_strlit("jpg");
    reveal_strlit("jpeg");
    reveal_strlit("png");
    reveal_strlit("heic");
    reveal_strlit("heif");
    reveal_strlit("webp");
    reveal_strlit("gif");
    reveal_strlit("bmp");
    reveal_strlit("tiff");
    reveal_strlit("tif");
    reveal_strlit("raw");
    reveal_strlit("dng");
    reveal_strlit("arw");
    reveal_strlit("cr2");
    reveal_strlit("cr3");
    reveal_strlit("nef");
    reveal_strlit("orf");
    reveal_strlit("rw2");
    reveal_strlit("mp4");
    reveal_strlit("mov");
    reveal_strlit("3gp");
    reveal_strlit("mkv");
    reveal_strlit("avi");
    reveal_strlit("m4v");
    reveal_strlit("webm");
    reveal_strlit("mts");
    reveal_strlit("m2ts");
}

/// The text after the last `.` of `s` (all of `s` when it has none; `is_media_path` only
/// reads it when there is one).
pub open spec fn extension_of(s: Seq<char>) -> Seq<char>
    decreases s.len(),
{
    if s.len() == 0 {
        s
    } else if s.last() == '.' {
        Seq::empty()
    } else {
        extension_of(s.drop_last()).push(s.last())
    }
}

/// A path is media when it has an extension (a `.` somewhere) and that extension, the text
/// after its last `.`, lower-cased, is in `exts`.
pub open spec fn is_media_path(path: Seq<char>, exts: Set<Seq<char>>) -> bool {
    path.contains('.') && exts.contains(lower_seq(extension_of(path)))
}

proof fn lemma_extension_after_dot(p: Seq<char>, e: Seq<char>)
    requires
        !e.contains('.'),
    ensures
        extension_of(p + seq!['.'] + e) == e,
    decreases e.len(),
{
    let s = p + seq!['.'] + e;
    if e.len() == 0 {
        assert(s.last() == '.');
        assert(e =~= Seq::<char>::empty());
    } else {
        assert(e.last() == e[e.len() - 1]);
        assert(!e.drop_last().contains('.')) by {
            if e.drop_last().contains('.') {
                let k = choose|k: int| 0 <= k < e.drop_last().len() && e.drop_last()[k] == '.';
                assert(e[k] == '.');
            }
        }
        lemma_extension_after_dot(p, e.drop_last());
        assert(s.drop_last() =~= p + seq!['.'] + e.drop_last());
        assert(s.last() == e.last());
        assert(e.drop_last().push(e.last()) =~= e);
    }
}

/// Whether a path is media depends only on the text after its last dot, read without case:
/// `<anything>.<ext>` (with no dot in `ext`) is media exactly when the lower-cased `ext` is
/// one of `exts`, and a path with no dot at all never is.
pub proof fn law_media_by_last_extension(p: Seq<char>, e: Seq<char>, exts: Set<Seq<char>>)
    ensures
        !e.contains('.') ==> (is_media_path(p + seq!['.'] + e, exts) == exts.contains(lower_seq(e))),
        !p.contains('.') ==> !is_media_path(p, exts),
{
    if !e.contains('.') {
        lemma_extension_after_dot(p, e);
        let s = p + seq!['.'] + e;
        assert(s[p.len() as int] == '.');
        assert(s.contains('.'));
    }
}

/// Whether `rel_path` has an extension, and it is one of `exts` (ASCII case does not matter).
/// A path without a `.` is never media.
pub fn is_media(rel_path: &str, exts: &StringHashSet) -> (r: bool)
    ensures
        r == is_media_path(rel_path@, exts@),
{
    let cs = chars_of(rel_path);
    let n = cs.len();
    let mut i: usize = n;
    assert(cs@.take(n as int) =~= cs@);
    assert(cs@.subrange(n as int, n as int) =~= Seq::<char>::empty());
    while i > 0 && cs[i - 1] != '.'
        invariant
            i <= n,
            n == cs@.len(),
            extension_of(cs@) == extension_of(cs@.take(i as int)) + cs@.subrange(i as int, n as int),
            forall|j: int| i <= j < n ==> cs@[j] != '.',
        decreases i,
    {
        proof {
            let t = cs@.take(i as int);
            assert(t.drop_last() =~= cs@.take(i - 1));
            assert(t.last() == cs@[i - 1]);
            assert(cs@.subrange(i - 1, n as int) =~= seq![cs@[i - 1]] + cs@.subrange(i as int, n as int));
            assert(extension_of(t) == extension_of(cs@.take(i - 1)).push(cs@[i - 1]));
            assert(extension_of(cs@.take(i - 1)).push(cs@[i - 1]) + cs@.subrange(i as int, n as int)
                =~= extension_of(cs@.take(i - 1)) + cs@.subrange(i - 1, n as int));
        }
        i = i - 1;
    }
    proof {
        if i == 0 {
            assert(cs@.take(0) =~= Seq::<char>::empty());
        } else {
            assert(cs@.take(i as int).last() == '.');
        }
        assert(extension_of(cs@.take(i as int)) =~= Seq::<char>::empty());
        assert(extension_of(cs@) =~= cs@.subrange(i as int, n as int));
    }
    if i == 0 {
        assert(!cs@.contains('.'));
        return false;
    }
    assert(cs@[i - 1] == '.');
    assert(cs@.contains('.'));
    let mut ext = String::new();
    let mut k: usize = i;
    while k < n
        invariant
            i <= k <= n,
            n == cs@.len(),
            ext@ == lower_seq(cs@.subrange(i as int, k as int)),
        decreases n - k,
    {
        push_char(&mut ext, to_ascii_lower(cs[k]));
        assert(ext@ =~= lower_seq(cs@.subrange(i as int, k + 1)));
        k = k + 1;
    }
    exts.contains(ext.as_str())
}

// ---------------------------------------------------------------------------------------
// Modify facts with fractional seconds
// ---------------------------------------------------------------------------------------

/// The key `modify=` starts at `p` (ASCII case ignored).
pub open spec fn modify_at(s: Seq<char>, p: int) -> bool {
    0 <= p && p + 7 <= s.len() && lower_seq(s.subrange(p, p + 7)) == seq!['m', 'o', 'd', 'i', 'f', 'y', '=']
}

/// The first place at or after `i` where `modify=` starts.
pub open spec fn find_modify_from(s: Seq<char>, i: int) -> Option<int>
    decreases s.len() - i,
{
    if i < 0 || i + 7 > s.len() {
        None
    } else if modify_at(s, i) {
        Some(i)
    } else {
        find_modify_from(s, i + 1)
    }
}

/// The line with the fractional seconds of its first `Modify=` value removed: from the first
/// `.` inside the value (which ends at the next `;`, or at the end of the line) up to the end
/// of the value. A line without such a `.` is returned unchanged.
pub open spec fn strip_fraction_spec(s: Seq<char>) -> Seq<char> {
    match find_modify_from(s, 0) {
        None => s,
        Some(p) => {
            let vs = p + 7;
            let ve = match find_char_from(s, ';', vs) {
                Some(e) => e,
                None => s.len() as int,
            };
            match find_char_from(s, '.', vs) {
                Some(d) => if d < ve {
                    s.subrange(0, d) + s.subrange(ve, s.len() as int)
                } else {
                    s
                },
                None => s,
            }
        },
    }
}

fn modify_key_at(cs: &Vec<char>, p: usize) -> (r: bool)
    requires
        p + 7 <= cs@.len(),
    ensures
        r == modify_at(cs@, p as int),
{
    let key = ['m', 'o', 'd', 'i', 'f', 'y', '='];
    let ghost k = seq!['m', 'o', 'd', 'i', 'f', 'y', '='];
    assert(key@ =~= k);
    let mut j: usize = 0;
    while j < 7
        invariant
            j <= 7,
            p + 7 <= cs.len(),
            key@ == k,
            k == seq!['m', 'o', 'd', 'i', 'f', 'y', '='],
            forall|t: int| 0 <= t < j ==> ascii_lower(#[trigger] cs@[p + t]) == k[t],
        decreases 7 - j,
    {
        if to_ascii_lower(cs[p + j]) != key[j] {
            proof {
                let w = lower_seq(cs@.subrange(p as int, p + 7));
                assert(w[j as int] == ascii_lower(cs@[p + j]));
                assert(key[j as int] == k[j as int]);
                assert(w[j as int] != k[j as int]);
                assert(w != k);
                assert(!modify_at(cs@, p as int));
            }
            return false;
        }
        j = j + 1;
    }
    proof {
        let w = lower_seq(cs@.subrange(p as int, p + 7));
        assert forall|t: int| 0 <= t < 7 implies w[t] == k[t] by {
            assert(w[t] == ascii_lower(cs@[p + t]));
        }
        assert(w =~= k);
        assert(modify_at(cs@, p as int));
    }
    true
}

fn find_modify(cs: &Vec<char>) -> (r: Option<usize>)
    ensures
        r matches Some(p) ==> find_modify_from(cs@, 0) == Some(p as int) && p + 7 <= cs@.len(),
        r is None ==> find_modify_from(cs@, 0) is None,
{
    let n = cs.len();
    let mut i: usize = 0;
    while i < n && n - i >= 7
        invariant
            n == cs@.len(),
            i <= n,
            find_modify_from(cs@, 0) == find_modify_from(cs@, i as int),
        decreases n - i,
    {
        if modify_key_at(cs, i) {
            return Some(i);
        }
        i = i + 1;
    }
    assert(find_modify_from(cs@, i as int) is None);
    None
}

/// Removes the fractional seconds from the `Modify=` fact of an MLSD line
/// (`Modify=20241225213441.564;` becomes `Modify=20241225213441;`); other facts are untouched.
pub fn strip_modify_fraction(raw: &str) -> (r: String)
    ensures
        r@ == strip_fraction_spec(raw@),
{
    let cs = chars_of(raw);
    let n = cs.len();
    let p = match find_modify(&cs) {
        None => {
            return String::from_str(raw);
        },
        Some(p) => p,
    };
    let vs = p + 7;
    let ve = match find_char(&cs, ';', vs) {
        Some(e) => e,
        None => n,
    };
    match find_char(&cs, '.', vs) {
        Some(d) => {
            if d < ve {
                let mut out = String::new();
                push_range(&mut out, &cs, 0, d);
                proof {
                    if ve < n {
                        assert(find_char_from(cs@, ';', vs as int) == Some(ve as int));
                    }
                }
                push_range(&mut out, &cs, ve, n);
                out
            } else {
                String::from_str(raw)
            }
        },
        None => String::from_str(raw),
    }
}

proof fn lemma_find_char_from_some(s: Seq<char>, c: char, i: int, k: int)
    requires
        0 <= i <= k < s.len(),
        s[k] == c,
        forall|j: int| i <= j < k ==> s[j] != c,
    ensures
        find_char_from(s, c, i) == Some(k),
    decreases k - i,
{
    if i < k {
        lemma_find_char_from_some(s, c, i + 1, k);
    }
}

proof fn lemma_find_char_from_none(s: Seq<char>, c: char, i: int)
    requires
        0 <= i,
        forall|j: int| i <= j < s.len() ==> s[j] != c,
    ensures
        find_char_from(s, c, i) is None,
    decreases s.len() - i,
{
    if i < s.len() {
        lemma_find_char_from_none(s, c, i + 1);
    }
}

proof fn lemma_find_char_from_found(s: Seq<char>, c: char, i: int)
    requires
        0 <= i,
    ensures
        find_char_from(s, c, i) matches Some(k) ==> i <= k < s.len() && s[k] == c && forall|j: int|
            i <= j < k ==> s[j] != c,
        find_char_from(s, c, i) is None ==> forall|j: int| i <= j < s.len() ==> s[j] != c,
    decreases s.len() - i,
{
    if i < s.len() && s[i] != c {
        lemma_find_char_from_found(s, c, i + 1);
    }
}

proof fn lemma_find_modify_found(s: Seq<char>, i: int)
    requires
        0 <= i,
    ensures
        find_modify_from(s, i) matches Some(p) ==> i <= p && modify_at(s, p) && forall|j: int|
            i <= j < p ==> !modify_at(s, j),
    decreases s.len() - i,
{
    if i + 7 <= s.len() && !modify_at(s, i) {
        lemma_find_modify_found(s, i + 1);
    }
}

proof fn lemma_find_modify_same_prefix(s: Seq<char>, t: Seq<char>, i: int, p: int)
    requires
        0 <= i <= p,
        p + 7 <= s.len(),
        p + 7 <= t.len(),
        t.take(p + 7) == s.take(p + 7),
        modify_at(s, p),
        forall|j: int| i <= j < p ==> !modify_at(s, j),
    ensures
        find_modify_from(t, i) == Some(p),
    decreases p - i,
{
    assert(t.subrange(i, i + 7) =~= s.subrange(i, i + 7)) by {
        assert forall|k: int| 0 <= k < 7 implies #[trigger] t.subrange(i, i + 7)[k] == s.subrange(i, i + 7)[k] by {
            assert(t.take(p + 7)[i + k] == t[i + k]);
            assert(s.take(p + 7)[i + k] == s[i + k]);
        }
    }
    assert(modify_at(t, i) == modify_at(s, i));
    if i < p {
        lemma_find_modify_same_prefix(s, t, i + 1, p);
    }
}

/// Taking out the fraction of seconds a second time changes nothing: the result of
/// `strip_modify_fraction` has no fraction left in its first `modify=` value.
pub proof fn law_strip_fraction_idempotent(s: Seq<char>)
    ensures
        strip_fraction_spec(strip_fraction_spec(s)) == strip_fraction_spec(s),
{
    let t = strip_fraction_spec(s);
    lemma_find_modify_found(s, 0);
    if let Some(p) = find_modify_from(s, 0) {
        let vs = p + 7;
        lemma_find_char_from_found(s, ';', vs);
        lemma_find_char_from_found(s, '.', vs);
        let ve = match find_char_from(s, ';', vs) {
            Some(e) => e,
            None => s.len() as int,
        };
        if let Some(d) = find_char_from(s, '.', vs) {
            if d < ve {
                assert(t == s.subrange(0, d) + s.subrange(ve, s.len() as int));
                assert(t.take(p + 7) =~= s.take(p + 7));
                lemma_find_modify_same_prefix(s, t, 0, p);
                // In `t`, the value runs from `vs` to `d`, where `s[ve..]` starts.
                assert forall|j: int| vs <= j < d implies t[j] != ';' && t[j] != '.' by {
                    assert(t[j] == s[j]);
                }
                if ve < s.len() {
                    assert(t[d] == s[ve]);
                    lemma_find_char_from_some(t, ';', vs, d);
                    lemma_find_char_from_found(t, '.', vs);
                } else {
                    assert(t.len() == d);
                    lemma_find_char_from_none(t, ';', vs);
                    lemma_find_char_from_none(t, '.', vs);
                }
            }
        }
    }
}

} // verus!

verus! {

// ---------------------------------------------------------------------------------------
// Scan configuration
// ---------------------------------------------------------------------------------------

/// What a scan keeps: paths matching one of `includes` (all paths when there are none),
/// matching none of `excludes`, with a media extension, at most `max_depth` levels down.
pub struct WalkConfig {
    pub includes: Vec<String>,
    pub excludes: Vec<String>,
    pub extensions: StringHashSet,
    pub max_depth: u32,
}

/// The pattern compiles and matches the path.
pub open spec fn glob_hit(pattern: Seq<char>, path: Seq<char>) -> bool {
    glob_compile(pattern) is None && glob_matches(pattern, path)
}

pub open spec fn included_by(includes: Seq<Seq<char>>, path: Seq<char>) -> bool {
    includes.len() == 0 || exists|i: int| 0 <= i < includes.len() && glob_hit(#[trigger] includes[i], path)
}

pub open spec fn excluded_by(excludes: Seq<Seq<char>>, path: Seq<char>) -> bool {
    exists|i: int| 0 <= i < excludes.len() && glob_hit(#[trigger] excludes[i], path)
}

/// Index of the first pattern from `i` on that does not compile.
pub open spec fn first_invalid_from(ps: Seq<Seq<char>>, i: int) -> Option<int>
    decreases ps.len() - i,
{
    if i < 0 || i >= ps.len() {
        None
    } else if glob_compile(ps[i]) is Some {
        Some(i)
    } else {
        first_invalid_from(ps, i + 1)
    }
}

/// The configuration error for a pattern that does not compile.
pub open spec fn bad_glob_message(pattern: Seq<char>, err: Seq<char>) -> Seq<char> {
    "无效 glob `"@ + pattern + "`: "@ + err
}

fn any_hit(patterns: &Vec<String>, path: &str) -> (r: bool)
    ensures
        r == exists|i: int| 0 <= i < patterns@.len() && glob_hit(#[trigger] texts(patterns@)[i], path@),
{
    let mut i: usize = 0;
    while i < patterns.len()
        invariant
            i <= patterns@.len(),
            forall|j: int| 0 <= j < i ==> !glob_hit(#[trigger] texts(patterns@)[j], path@),
        decreases patterns.len() - i,
    {
        if glob_match(patterns[i].as_str(), path) {
            assert(glob_hit(texts(patterns@)[i as int], path@));
            return true;
        }
        assert(!glob_hit(texts(patterns@)[i as int], path@));
        i = i + 1;
    }
    false
}

/// Whether `rel_path` is wanted by the include patterns.
pub fn included(rel_path: &str, cfg: &WalkConfig) -> (r: bool)
    ensures
        r == included_by(texts(cfg.includes@), rel_path@),
{
    if cfg.includes.len() == 0 {
        return true;
    }
    any_hit(&cfg.includes, rel_path)
}

/// Whether `rel_path` is ruled out by the exclude patterns.
pub fn excluded(rel_path: &str, cfg: &WalkConfig) -> (r: bool)
    ensures
        r == excluded_by(texts(cfg.excludes@), rel_path@),
{
    any_hit(&cfg.excludes, rel_path)
}

fn first_invalid(ps: &[String]) -> (r: Option<(usize, String)>)
    ensures
        r matches Some(x) ==> first_invalid_from(texts(ps@), 0) == Some(x.0 as int)
            && x.0 < ps@.len() && glob_compile(ps@[x.0 as int]@) == Some(x.1@),
        r is None ==> first_invalid_from(texts(ps@), 0) is None,
{
    let mut i: usize = 0;
    while i < ps.len()
        invariant
            i <= ps@.len(),
            first_invalid_from(texts(ps@), 0) == first_invalid_from(texts(ps@), i as int),
        decreases ps.len() - i,
    {
        match glob_check(ps[i].as_str()) {
            Some(msg) => {
                return Some((i, msg));
            },
            None => {},
        }
        i = i + 1;
    }
    None
}

fn bad_glob_error(pattern: &String, err: &String) -> (r: AlbumError)
    ensures
        r matches AlbumError::Config(m) && m@ == bad_glob_message(pattern@, err@),
{
    let mut m = String::new();
    push_str(&mut m, "无效 glob `");
    push_str(&mut m, pattern.as_str());
    push_str(&mut m, "`: ");
    push_str(&mut m, err.as_str());
    assert(m@ =~= bad_glob_message(pattern@, err@));
    AlbumError::Config(m)
}

impl WalkConfig {
    /// Builds the scan configuration from the include and exclude patterns of the settings;
    /// the first pattern that does not compile (includes first) is reported as a
    /// configuration error.
    pub fn from_settings(includes: &[String], excludes: &[String]) -> (r: Result<WalkConfig, AlbumError>)
        ensures
            (first_invalid_from(texts(includes@), 0) matches Some(i) ==> (r matches Err(
                AlbumError::Config(m),
            ) && m@ == bad_glob_message(includes@[i]@, glob_compile(includes@[i]@)->0))),
            first_invalid_from(texts(includes@), 0) is None ==> (first_invalid_from(texts(excludes@), 0) matches Some(i)
                ==> (r matches Err(AlbumError::Config(m)) && m@ == bad_glob_message(
                excludes@[i]@,
                glob_compile(excludes@[i]@)->0,
            ))),
            (first_invalid_from(texts(includes@), 0) is None && first_invalid_from(texts(excludes@), 0) is None)
                ==> (r matches Ok(cfg) && cfg.includes@ == includes@ && cfg.excludes@ == excludes@
                && cfg.extensions@ == media_extension_set() && cfg.max_depth == 16),
    {
        match first_invalid(includes) {
            Some((i, msg)) => {
                return Err(bad_glob_error(&includes[i], &msg));
            },
            None => {},
        }
        match first_invalid(excludes) {
            Some((i, msg)) => {
                return Err(bad_glob_error(&excludes[i], &msg));
            },
            None => {},
        }
        Ok(WalkConfig {
            includes: clone_strings(includes),
            excludes: clone_strings(excludes),
            extensions: media_extensions(),
            max_depth: 16,
        })
    }
}

// ---------------------------------------------------------------------------------------
// One listing entry
// ---------------------------------------------------------------------------------------

/// Seconds since the Unix epoch as a signed count (`as i64` of the unsigned count), 0 for a
/// time before the epoch.
pub open spec fn unix_secs(modified: Option<u64>) -> i64 {
    match modified {
        Some(s) => s as i64,
        None => 0,
    }
}

/// Converts a modification time, given as seconds since the epoch when it is not before it,
/// into signed Unix seconds.
pub fn systemtime_to_unix(modified: Option<u64>) -> (r: i64)
    ensures
        r == unix_secs(modified),
{
    match modified {
        Some(s) => s as i64,
        None => 0,
    }
}

/// The absolute path of entry `name` in directory `dir` (the root when `dir` is empty).
pub open spec fn abs_path_of(dir: Seq<char>, name: Seq<char>) -> Seq<char> {
    if dir.len() == 0 {
        seq!['/'] + name
    } else {
        dir + seq!['/'] + name
    }
}

/// The path relative to `base`: `abs` without `base/` in front when it starts so, otherwise
/// `abs` without its leading slashes.
pub open spec fn rel_path_of(base: Seq<char>, abs: Seq<char>) -> Seq<char> {
    let prefix = base + seq!['/'];
    if prefix.is_prefix_of(abs) {
        abs.subrange(prefix.len() as int, abs.len() as int)
    } else {
        trim_leading_slashes(abs)
    }
}

/// Absolute and base-relative path of entry `name` in directory `dir`.
pub fn entry_paths(base: &str, dir: &str, name: &str) -> (r: (String, String))
    ensures
        r.0@ == abs_path_of(dir@, name@),
        r.1@ == rel_path_of(base@, abs_path_of(dir@, name@)),
{
    let mut abs = String::new();
    if dir.is_empty() {
        push_char(&mut abs, '/');
        push_str(&mut abs, name);
    } else {
        push_str(&mut abs, dir);
        push_char(&mut abs, '/');
        push_str(&mut abs, name);
    }
    assert(abs@ =~= abs_path_of(dir@, name@));
    let acs = chars_of(abs.as_str());
    let mut pre = chars_of(base);
    pre.push('/');
    assert(pre@ =~= base@ + seq!['/']);
    let rel = if has_prefix(&acs, &pre) {
        string_of_range(&acs, pre.len(), acs.len())
    } else {
        let k = leading_slashes_end(&acs);
        string_of_range(&acs, k, acs.len())
    };
    (abs, rel)
}

/// What the scan does with one listing entry.
#[derive(Debug)]
pub enum ScanOutcome {
    /// Not a candidate (unparsable, `.`/`..`, a link, excluded or not media).
    Skip,
    /// A directory to visit, at the given depth.
    Descend(String, u32),
    /// A file to back up.
    Accept(FileEntry),
}

pub enum OutcomeView {
    Skip,
    Descend(Seq<char>, u32),
    Accept((Seq<char>, u64, i64)),
}

impl View for ScanOutcome {
    type V = OutcomeView;

    open spec fn view(&self) -> OutcomeView {
        match self {
            ScanOutcome::Skip => OutcomeView::Skip,
            ScanOutcome::Descend(d, k) => OutcomeView::Descend(d@, *k),
            ScanOutcome::Accept(e) => OutcomeView::Accept(e@),
        }
    }
}

/// The outcome for a parsed listing entry found in `dir` (at `depth`) during a scan rooted
/// at `base`: directories are visited one level deeper unless excluded; files are accepted
/// when they have a media extension, are included and are not excluded.
pub open spec fn outcome_spec(
    cfg: WalkConfig,
    base: Seq<char>,
    dir: Seq<char>,
    depth: u32,
    parsed: Option<MlsdView>,
) -> OutcomeView {
    match parsed {
        None => OutcomeView::Skip,
        Some(e) => {
            if e.name == seq!['.'] || e.name == seq!['.', '.'] {
                OutcomeView::Skip
            } else {
                let abs = abs_path_of(dir, e.name);
                let rel = rel_path_of(base, abs);
                match e.kind {
                    EntryKind::Directory => if excluded_by(texts(cfg.excludes@), rel) {
                        OutcomeView::Skip
                    } else {
                        OutcomeView::Descend(abs, (depth + 1) as u32)
                    },
                    EntryKind::File => if is_media_path(rel, cfg.extensions@) && included_by(
                        texts(cfg.includes@),
                        rel,
                    ) && !excluded_by(texts(cfg.excludes@), rel) {
                        OutcomeView::Accept((rel, e.size, unix_secs(e.modified)))
                    } else {
                        OutcomeView::Skip
                    },
                    EntryKind::Symlink => OutcomeView::Skip,
                }
            }
        },
    }
}

fn is_dot_name(name: &str) -> (r: bool)
    ensures
        r == (name@ == seq!['.'] || name@ == seq!['.', '.']),
{
    let cs = chars_of(name);
    let r = (cs.len() == 1 && cs[0] == '.') || (cs.len() == 2 && cs[0] == '.' && cs[1] == '.');
    proof {
        if cs@.len() == 1 && cs@[0] == '.' {
            assert(cs@ =~= seq!['.']);
        }
        if cs@.len() == 2 && cs@[0] == '.' && cs@[1] == '.' {
            assert(cs@ =~= seq!['.', '.']);
        }
    }
    r
}

/// Decides what to do with a listing entry that has been parsed (or failed to parse).
pub fn classify_entry(
    cfg: &WalkConfig,
    base: &str,
    dir: &str,
    depth: u32,
    parsed: Option<MlsdEntry>,
) -> (r: ScanOutcome)
    requires
        depth < u32::MAX,
    ensures
        r@ == outcome_spec(*cfg, base@, dir@, depth, match parsed {
            Some(e) => Some(e@),
            None => None,
        }),
{
    let e = match parsed {
        None => {
            return ScanOutcome::Skip;
        },
        Some(e) => e,
    };
    if is_dot_name(e.name.as_str()) {
        return ScanOutcome::Skip;
    }
    let (abs, rel) = entry_paths(base, dir, e.name.as_str());
    match e.kind {
        EntryKind::Directory => {
            if excluded(rel.as_str(), cfg) {
                ScanOutcome::Skip
            } else {
                ScanOutcome::Descend(abs, depth + 1)
            }
        },
        EntryKind::File => {
            let ext_ok = is_media(rel.as_str(), &cfg.extensions);
            let inc_ok = included(rel.as_str(), cfg);
            let exc_hit = excluded(rel.as_str(), cfg);
            if ext_ok && inc_ok && !exc_hit {
                let mtime = systemtime_to_unix(e.modified);
                ScanOutcome::Accept(FileEntry { rel_path: rel, size: e.size, mtime })
            } else {
                ScanOutcome::Skip
            }
        },
        EntryKind::Symlink => ScanOutcome::Skip,
    }
}

} // verus!

verus! {

// ---------------------------------------------------------------------------------------
// The scan itself: a stack of directories still to list
// ---------------------------------------------------------------------------------------

/// The outcome of one raw MLSD line.
pub open spec fn line_outcome(cfg: WalkConfig, base: Seq<char>, dir: Seq<char>, depth: u32, line: Seq<char>) -> OutcomeView {
    outcome_spec(cfg, base, dir, depth, mlsd_parse(strip_fraction_spec(line)))
}

/// Directories to visit that a listing yields, in listing order.
pub open spec fn descents(cfg: WalkConfig, base: Seq<char>, dir: Seq<char>, depth: u32, lines: Seq<Seq<char>>) -> Seq<(Seq<char>, u32)>
    decreases lines.len(),
{
    if lines.len() == 0 {
        Seq::empty()
    } else {
        descents(cfg, base, dir, depth, lines.drop_last()) + match line_outcome(cfg, base, dir, depth, lines.last()) {
            OutcomeView::Descend(d, k) => seq![(d, k)],
            _ => Seq::empty(),
        }
    }
}

/// Files that a listing yields, in listing order.
pub open spec fn accepts(cfg: WalkConfig, base: Seq<char>, dir: Seq<char>, depth: u32, lines: Seq<Seq<char>>) -> Seq<(Seq<char>, u64, i64)>
    decreases lines.len(),
{
    if lines.len() == 0 {
        Seq::empty()
    } else {
        accepts(cfg, base, dir, depth, lines.drop_last()) + match line_outcome(cfg, base, dir, depth, lines.last()) {
            OutcomeView::Accept(e) => seq![e],
            _ => Seq::empty(),
        }
    }
}

pub open spec fn pending_view(s: Seq<(String, u32)>) -> Seq<(Seq<char>, u32)> {
    s.map_values(|x: (String, u32)| (x.0@, x.1))
}

pub open spec fn found_view(s: Seq<FileEntry>) -> Seq<(Seq<char>, u64, i64)> {
    s.map_values(|e: FileEntry| e@)
}

/// The directory visited next: the most recently pushed one whose depth is within
/// `max_depth` (deeper ones are dropped on the way), and the stack left afterwards.
pub open spec fn next_pending(stack: Seq<(Seq<char>, u32)>, max_depth: u32) -> (Seq<(Seq<char>, u32)>, Option<(Seq<char>, u32)>)
    decreases stack.len(),
{
    if stack.len() == 0 {
        (stack, None)
    } else if stack.last().1 > max_depth {
        next_pending(stack.drop_last(), max_depth)
    } else {
        (stack.drop_last(), Some(stack.last()))
    }
}

/// The state of a depth-first scan of the phone: the scan root, the directories still to
/// list, and the files accepted so far.
pub struct Walker {
    pub base: String,
    pub pending: Vec<(String, u32)>,
    pub found: Vec<FileEntry>,
    pub max_depth: u32,
}

impl Walker {
    /// Starts a scan at `base_dir` (trailing slashes dropped), at depth 0.
    pub fn new(base_dir: &str, cfg: &WalkConfig) -> (r: Walker)
        ensures
            r.base@ == trim_trailing_slashes(base_dir@),
            pending_view(r.pending@) == seq![(r.base@, 0u32)],
            r.found@.len() == 0,
            r.max_depth == cfg.max_depth,
    {
        let cs = chars_of(base_dir);
        let k = trailing_slashes_start(&cs);
        let base = string_of_range(&cs, 0, k);
        assert(cs@.subrange(0, k as int) =~= cs@.take(k as int));
        let mut pending: Vec<(String, u32)> = Vec::new();
        pending.push((base.clone(), 0));
        assert(pending_view(pending@) =~= seq![(base@, 0u32)]);
        Walker { base, pending, found: Vec::new(), max_depth: cfg.max_depth }
    }

    /// The directory to change into for listing `dir`: the root when `dir` is empty.
    pub fn cwd_target(dir: &str) -> (r: String)
        ensures
            r@ == if dir@.len() == 0 {
                seq!['/']
            } else {
                dir@
            },
    {
        if dir.is_empty() {
            let mut s = String::new();
            push_char(&mut s, '/');
            assert(s@ =~= seq!['/']);
            s
        } else {
            String::from_str(dir)
        }
    }

    /// Takes the next directory to list, skipping those deeper than `max_depth`.
    pub fn next_dir(&mut self) -> (r: Option<(String, u32)>)
        ensures
            pending_view(final(self).pending@) == next_pending(pending_view(old(self).pending@), old(self).max_depth).0,
            (match r {
                Some(x) => next_pending(pending_view(old(self).pending@), old(self).max_depth).1 == Some((x.0@, x.1)),
                None => next_pending(pending_view(old(self).pending@), old(self).max_depth).1 is None,
            }),
            final(self).base == old(self).base,
            final(self).found == old(self).found,
            final(self).max_depth == old(self).max_depth,
    {
        loop
            invariant
                self.base == old(self).base,
                self.found == old(self).found,
                self.max_depth == old(self).max_depth,
                next_pending(pending_view(old(self).pending@), old(self).max_depth) == next_pending(
                    pending_view(self.pending@),
                    self.max_depth,
                ),
            decreases self.pending@.len(),
        {
            let ghost before = self.pending@;
            match self.pending.pop() {
                None => {
                    assert(pending_view(before).len() == 0);
                    return None;
                },
                Some(x) => {
                    proof {
                        assert(pending_view(before).drop_last() =~= pending_view(self.pending@));
                        assert(pending_view(before).last() == (x.0@, x.1));
                    }
                    if x.1 <= self.max_depth {
                        return Some(x);
                    }
                },
            }
        }
    }

    /// Takes in the listing of `dir` (visited at `depth`): accepted files are recorded and
    /// directories to visit are pushed, both in listing order.
    pub fn scan_listing(&mut self, cfg: &WalkConfig, dir: &str, depth: u32, listing: &Vec<String>)
        requires
            depth < u32::MAX,
            listing_safe(texts(listing@)),
        ensures
            final(self).base == old(self).base,
            final(self).max_depth == old(self).max_depth,
            pending_view(final(self).pending@) == pending_view(old(self).pending@) + descents(
                *cfg,
                old(self).base@,
                dir@,
                depth,
                texts(listing@),
            ),
            found_view(final(self).found@) == found_view(old(self).found@) + accepts(
                *cfg,
                old(self).base@,
                dir@,
                depth,
                texts(listing@),
            ),
    {
        let mut i: usize = 0;
        while i < listing.len()
            invariant
                i <= listing@.len(),
                depth < u32::MAX,
                listing_safe(texts(listing@)),
                self.base == old(self).base,
                self.max_depth == old(self).max_depth,
                pending_view(self.pending@) == pending_view(old(self).pending@) + descents(
                    *cfg,
                    self.base@,
                    dir@,
                    depth,
                    texts(listing@).take(i as int),
                ),
                found_view(self.found@) == found_view(old(self).found@) + accepts(
                    *cfg,
                    self.base@,
                    dir@,
                    depth,
                    texts(listing@).take(i as int),
                ),
            decreases listing.len() - i,
        {
            let cleaned = strip_modify_fraction(listing[i].as_str());
            assert(texts(listing@)[i as int] == listing@[i as int]@);
            let parsed = parse_mlsd_line(cleaned.as_str());
            let ghost pv: Option<MlsdView> = if parsed is Some {
                Some(parsed->0@)
            } else {
                None
            };
            let outcome = classify_entry(cfg, self.base.as_str(), dir, depth, parsed);
            let ghost lines = texts(listing@).take(i + 1);
            proof {
                assert(lines.drop_last() =~= texts(listing@).take(i as int));
                assert(lines.last() == listing@[i as int]@);
                assert(pv == mlsd_parse(strip_fraction_spec(listing@[i as int]@)));
            }
            let ghost pv0 = pending_view(self.pending@);
            let ghost fv0 = found_view(self.found@);
            match outcome {
                ScanOutcome::Skip => {},
                ScanOutcome::Descend(d, k) => {
                    self.pending.push((d, k));
                    assert(pending_view(self.pending@) =~= pv0.push((d@, k)));
                },
                ScanOutcome::Accept(e) => {
                    self.found.push(e);
                    assert(found_view(self.found@) =~= fv0.push(e@));
                },
            }
            proof {
                assert(pending_view(self.pending@) =~= pending_view(old(self).pending@) + descents(
                    *cfg,
                    self.base@,
                    dir@,
                    depth,
                    lines,
                ));
                assert(found_view(self.found@) =~= found_view(old(self).found@) + accepts(
                    *cfg,
                    self.base@,
                    dir@,
                    depth,
                    lines,
                ));
            }
            i = i + 1;
        }
        assert(texts(listing@).take(listing@.len() as int) =~= texts(listing@));
    }

    /// The files accepted by the scan, in the order they were found.
    pub fn into_found(self) -> (r: Vec<FileEntry>)
        ensures
            r@ == self.found@,
    {
        self.found
    }
}

/// Every file a listing yields has a media extension, passes the include patterns and
/// matches no exclude pattern.
pub proof fn law_accepted_files_pass_filters(
    cfg: WalkConfig,
    base: Seq<char>,
    dir: Seq<char>,
    depth: u32,
    lines: Seq<Seq<char>>,
)
    ensures
        forall|i: int| 0 <= i < accepts(cfg, base, dir, depth, lines).len() ==> {
            let e = #[trigger] accepts(cfg, base, dir, depth, lines)[i];
            &&& is_media_path(e.0, cfg.extensions@)
            &&& included_by(texts(cfg.includes@), e.0)
            &&& !excluded_by(texts(cfg.excludes@), e.0)
        },
    decreases lines.len(),
{
    if lines.len() > 0 {
        law_accepted_files_pass_filters(cfg, base, dir, depth, lines.drop_last());
        let prev = accepts(cfg, base, dir, depth, lines.drop_last());
        let all = accepts(cfg, base, dir, depth, lines);
        assert forall|i: int| 0 <= i < all.len() implies {
            let e = #[trigger] all[i];
            &&& is_media_path(e.0, cfg.extensions@)
            &&& included_by(texts(cfg.includes@), e.0)
            &&& !excluded_by(texts(cfg.excludes@), e.0)
        } by {
            if i < prev.len() {
                assert(all[i] == prev[i]);
            }
        }
    }
}

} // verus!

verus! {

/// The scan never lists a directory deeper than `max_depth`, and what it takes was pending.
pub proof fn law_next_dir_within_depth(stack: Seq<(Seq<char>, u32)>, max_depth: u32)
    ensures
        next_pending(stack, max_depth).1 matches Some(x) ==> x.1 <= max_depth && stack.contains(x),
        next_pending(stack, max_depth).0.len() < stack.len() || stack.len() == 0,
    decreases stack.len(),
{
    if stack.len() > 0 {
        law_next_dir_within_depth(stack.drop_last(), max_depth);
        if stack.last().1 > max_depth {
            if next_pending(stack.drop_last(), max_depth).1 is Some {
                let x = next_pending(stack.drop_last(), max_depth).1->0;
                let k = choose|k: int| 0 <= k < stack.drop_last().len() && stack.drop_last()[k] == x;
                assert(stack[k] == x);
            }
        } else {
            assert(stack[stack.len() - 1] == stack.last());
        }
    }
}

} // verus!

verus! {

// ---------------------------------------------------------------------------------------
// A whole scan over a model of the phone's folders
// ---------------------------------------------------------------------------------------

/// The listing of `dir` in the model `tree` (`None`: the directory cannot be entered, and
/// the scan goes on without it).
pub open spec fn listing_in(tree: spec_fn(Seq<char>) -> Option<Seq<Seq<char>>>, dir: Seq<char>) -> Seq<Seq<char>> {
    match tree(dir) {
        Some(l) => l,
        None => Seq::empty(),
    }
}

/// The files that a scan of `dir`, entered at depth `k`, accepts in it and below it: nothing
/// deeper than `max_depth` is listed (and no depth past `u32::MAX` is counted).
pub open spec fn tree_files(
    tree: spec_fn(Seq<char>) -> Option<Seq<Seq<char>>>,
    cfg: WalkConfig,
    base: Seq<char>,
    dir: Seq<char>,
    k: u32,
) -> Set<(Seq<char>, u64, i64)>
    decreases cfg.max_depth + 1 - k, 0nat,
{
    if k > cfg.max_depth || k == u32::MAX {
        Set::empty()
    } else {
        let lines = listing_in(tree, dir);
        accepts(cfg, base, dir, k, lines).to_set() + files_below(
            tree,
            cfg,
            base,
            (k + 1) as u32,
            descents(cfg, base, dir, k, lines),
        )
    }
}

/// The files that scans of the directories `cs`, each entered at depth `k`, accept.
pub open spec fn files_below(
    tree: spec_fn(Seq<char>) -> Option<Seq<Seq<char>>>,
    cfg: WalkConfig,
    base: Seq<char>,
    k: u32,
    cs: Seq<(Seq<char>, u32)>,
) -> Set<(Seq<char>, u64, i64)>
    decreases cfg.max_depth + 1 - k, cs.len(),
{
    if cs.len() == 0 {
        Set::empty()
    } else {
        files_below(tree, cfg, base, k, cs.drop_last()) + tree_files(tree, cfg, base, cs.last().0, k)
    }
}

/// How many directories a scan of `dir`, entered at depth `k`, lists.
pub open spec fn tree_listed(
    tree: spec_fn(Seq<char>) -> Option<Seq<Seq<char>>>,
    cfg: WalkConfig,
    base: Seq<char>,
    dir: Seq<char>,
    k: u32,
) -> nat
    decreases cfg.max_depth + 1 - k, 0nat,
{
    if k > cfg.max_depth || k == u32::MAX {
        0
    } else {
        let lines = listing_in(tree, dir);
        1 + listed_below(tree, cfg, base, (k + 1) as u32, descents(cfg, base, dir, k, lines))
    }
}

pub open spec fn listed_below(
    tree: spec_fn(Seq<char>) -> Option<Seq<Seq<char>>>,
    cfg: WalkConfig,
    base: Seq<char>,
    k: u32,
    cs: Seq<(Seq<char>, u32)>,
) -> nat
    decreases cfg.max_depth + 1 - k, cs.len(),
{
    if cs.len() == 0 {
        0
    } else {
        listed_below(tree, cfg, base, k, cs.drop_last()) + tree_listed(tree, cfg, base, cs.last().0, k)
    }
}

/// The files and the number of listed directories of a stack of pending directories, each
/// at its own depth.
pub open spec fn stack_files(
    tree: spec_fn(Seq<char>) -> Option<Seq<Seq<char>>>,
    cfg: WalkConfig,
    base: Seq<char>,
    s: Seq<(Seq<char>, u32)>,
) -> Set<(Seq<char>, u64, i64)>
    decreases s.len(),
{
    if s.len() == 0 {
        Set::empty()
    } else {
        stack_files(tree, cfg, base, s.drop_last()) + tree_files(tree, cfg, base, s.last().0, s.last().1)
    }
}

pub open spec fn stack_listed(
    tree: spec_fn(Seq<char>) -> Option<Seq<Seq<char>>>,
    cfg: WalkConfig,
    base: Seq<char>,
    s: Seq<(Seq<char>, u32)>,
) -> nat
    decreases s.len(),
{
    if s.len() == 0 {
        0
    } else {
        stack_listed(tree, cfg, base, s.drop_last()) + tree_listed(tree, cfg, base, s.last().0, s.last().1)
    }
}

/// The scan as the program runs it, for at most `fuel` listings: take the next pending
/// directory (`Walker::next_dir`), list it, and take in its listing (`Walker::scan_listing`).
/// Gives the pending stack and the accepted files at the end.
pub open spec fn walk_from(
    tree: spec_fn(Seq<char>) -> Option<Seq<Seq<char>>>,
    cfg: WalkConfig,
    base: Seq<char>,
    stack: Seq<(Seq<char>, u32)>,
    found: Seq<(Seq<char>, u64, i64)>,
    fuel: nat,
) -> (Seq<(Seq<char>, u32)>, Seq<(Seq<char>, u64, i64)>)
    decreases fuel,
{
    if fuel == 0 {
        (stack, found)
    } else {
        let (rest, next) = next_pending(stack, cfg.max_depth);
        match next {
            None => (rest, found),
            Some(x) => {
                let lines = listing_in(tree, x.0);
                walk_from(
                    tree,
                    cfg,
                    base,
                    rest + descents(cfg, base, x.0, x.1, lines),
                    found + accepts(cfg, base, x.0, x.1, lines),
                    (fuel - 1) as nat,
                )
            },
        }
    }
}

proof fn lemma_descent_depths(cfg: WalkConfig, base: Seq<char>, dir: Seq<char>, k: u32, lines: Seq<Seq<char>>)
    requires
        k < u32::MAX,
    ensures
        forall|i: int| 0 <= i < descents(cfg, base, dir, k, lines).len() ==> (#[trigger] descents(cfg, base, dir, k, lines)[i]).1
            == k + 1,
    decreases lines.len(),
{
    if lines.len() > 0 {
        lemma_descent_depths(cfg, base, dir, k, lines.drop_last());
        let a = descents(cfg, base, dir, k, lines.drop_last());
        let all = descents(cfg, base, dir, k, lines);
        assert forall|i: int| 0 <= i < all.len() implies (#[trigger] all[i]).1 == k + 1 by {
            if i < a.len() {
                assert(all[i] == a[i]);
            }
        }
    }
}

proof fn lemma_below_is_stack(
    tree: spec_fn(Seq<char>) -> Option<Seq<Seq<char>>>,
    cfg: WalkConfig,
    base: Seq<char>,
    k: u32,
    cs: Seq<(Seq<char>, u32)>,
)
    requires
        forall|i: int| 0 <= i < cs.len() ==> (#[trigger] cs[i]).1 == k,
    ensures
        files_below(tree, cfg, base, k, cs) == stack_files(tree, cfg, base, cs),
        listed_below(tree, cfg, base, k, cs) == stack_listed(tree, cfg, base, cs),
    decreases cs.len(),
{
    if cs.len() > 0 {
        assert forall|i: int| 0 <= i < cs.drop_last().len() implies (#[trigger] cs.drop_last()[i]).1 == k by {
            assert(cs.drop_last()[i] == cs[i]);
        }
        lemma_below_is_stack(tree, cfg, base, k, cs.drop_last());
        assert(cs.last() == cs[cs.len() - 1]);
    }
}

proof fn lemma_stack_concat(
    tree: spec_fn(Seq<char>) -> Option<Seq<Seq<char>>>,
    cfg: WalkConfig,
    base: Seq<char>,
    a: Seq<(Seq<char>, u32)>,
    b: Seq<(Seq<char>, u32)>,
)
    ensures
        stack_files(tree, cfg, base, a + b) == stack_files(tree, cfg, base, a) + stack_files(tree, cfg, base, b),
        stack_listed(tree, cfg, base, a + b) == stack_listed(tree, cfg, base, a) + stack_listed(tree, cfg, base, b),
    decreases b.len(),
{
    if b.len() == 0 {
        assert(a + b =~= a);
        assert(stack_files(tree, cfg, base, a) + Set::empty() =~= stack_files(tree, cfg, base, a));
    } else {
        lemma_stack_concat(tree, cfg, base, a, b.drop_last());
        assert((a + b).drop_last() =~= a + b.drop_last());
        assert((a + b).last() == b.last());
        let fa = stack_files(tree, cfg, base, a);
        let fb = stack_files(tree, cfg, base, b.drop_last());
        let t = tree_files(tree, cfg, base, b.last().0, b.last().1);
        assert(fa + fb + t =~= fa + (fb + t));
    }
}

/// What `next_pending` takes off the stack: deeper directories are dropped (they hold no
/// listed files), and the one it returns leaves the rest.
proof fn lemma_next_pending_split(
    tree: spec_fn(Seq<char>) -> Option<Seq<Seq<char>>>,
    cfg: WalkConfig,
    base: Seq<char>,
    s: Seq<(Seq<char>, u32)>,
)
    ensures
        ({
            let (rest, next) = next_pending(s, cfg.max_depth);
            match next {
                None => rest.len() == 0 && stack_files(tree, cfg, base, s) == Set::<(Seq<char>, u64, i64)>::empty()
                    && stack_listed(tree, cfg, base, s) == 0,
                Some(x) => x.1 <= cfg.max_depth && stack_files(tree, cfg, base, s) == stack_files(tree, cfg, base, rest)
                    + tree_files(tree, cfg, base, x.0, x.1) && stack_listed(tree, cfg, base, s) == stack_listed(
                    tree,
                    cfg,
                    base,
                    rest,
                ) + tree_listed(tree, cfg, base, x.0, x.1),
            }
        }),
    decreases s.len(),
{
    if s.len() > 0 {
        lemma_next_pending_split(tree, cfg, base, s.drop_last());
        if s.last().1 > cfg.max_depth {
            let f = stack_files(tree, cfg, base, s.drop_last());
            assert(f + Set::<(Seq<char>, u64, i64)>::empty() =~= f);
        }
    }
}

proof fn lemma_concat_contains<A>(a: Seq<A>, b: Seq<A>, x: A)
    ensures
        (a + b).contains(x) <==> a.contains(x) || b.contains(x),
{
    if (a + b).contains(x) {
        let k = choose|k: int| 0 <= k < (a + b).len() && (a + b)[k] == x;
        if k < a.len() {
            assert(a[k] == x);
        } else {
            assert(b[k - a.len()] == x);
        }
    }
    if a.contains(x) {
        let k = choose|k: int| 0 <= k < a.len() && a[k] == x;
        assert((a + b)[k] == x);
    }
    if b.contains(x) {
        let k = choose|k: int| 0 <= k < b.len() && b[k] == x;
        assert((a + b)[a.len() + k] == x);
    }
}

proof fn lemma_walk_from(
    tree: spec_fn(Seq<char>) -> Option<Seq<Seq<char>>>,
    cfg: WalkConfig,
    base: Seq<char>,
    stack: Seq<(Seq<char>, u32)>,
    found: Seq<(Seq<char>, u64, i64)>,
    fuel: nat,
)
    requires
        cfg.max_depth < u32::MAX,
        fuel > stack_listed(tree, cfg, base, stack),
    ensures
        walk_from(tree, cfg, base, stack, found, fuel).0.len() == 0,
        forall|e: (Seq<char>, u64, i64)| #[trigger] walk_from(tree, cfg, base, stack, found, fuel).1.contains(e)
            <==> found.contains(e) || stack_files(tree, cfg, base, stack).contains(e),
    decreases fuel,
{
    lemma_next_pending_split(tree, cfg, base, stack);
    let (rest, next) = next_pending(stack, cfg.max_depth);
    if let Some(x) = next {
        let lines = listing_in(tree, x.0);
        let desc = descents(cfg, base, x.0, x.1, lines);
        let acc = accepts(cfg, base, x.0, x.1, lines);
        lemma_descent_depths(cfg, base, x.0, x.1, lines);
        lemma_below_is_stack(tree, cfg, base, (x.1 + 1) as u32, desc);
        lemma_stack_concat(tree, cfg, base, rest, desc);
        lemma_walk_from(tree, cfg, base, rest + desc, found + acc, (fuel - 1) as nat);
        let out = walk_from(tree, cfg, base, rest + desc, found + acc, (fuel - 1) as nat);
        assert forall|e: (Seq<char>, u64, i64)| #[trigger] out.1.contains(e) <==> found.contains(e)
            || stack_files(tree, cfg, base, stack).contains(e) by {
            lemma_concat_contains(found, acc, e);
            assert(acc.to_set().contains(e) <==> acc.contains(e));
        }
    }
}

/// A whole scan finds exactly the files of the tree within reach: started at `base` and run
/// until no directory is pending (more than one listing per directory it lists is never
/// needed), it accepts each file that some directory at most `max_depth` levels down yields
/// — a media file, included and not excluded (`law_accepted_files_pass_filters`) — and no
/// other.
pub proof fn law_scan_finds_the_files_within_reach(
    tree: spec_fn(Seq<char>) -> Option<Seq<Seq<char>>>,
    cfg: WalkConfig,
    base: Seq<char>,
)
    requires
        cfg.max_depth < u32::MAX,
    ensures
        ({
            let fuel = tree_listed(tree, cfg, base, base, 0) + 1;
            let out = walk_from(tree, cfg, base, seq![(base, 0u32)], Seq::empty(), fuel);
            &&& out.0.len() == 0
            &&& forall|e: (Seq<char>, u64, i64)| #[trigger] out.1.contains(e) <==> tree_files(tree, cfg, base, base, 0).contains(e)
        }),
{
    let s = seq![(base, 0u32)];
    assert(s.drop_last() =~= Seq::<(Seq<char>, u32)>::empty());
    assert(s.last() == (base, 0u32));
    assert(stack_listed(tree, cfg, base, Seq::<(Seq<char>, u32)>::empty()) == 0);
    assert(stack_files(tree, cfg, base, Seq::<(Seq<char>, u32)>::empty()) == Set::<(Seq<char>, u64, i64)>::empty());
    assert(stack_listed(tree, cfg, base, s) == tree_listed(tree, cfg, base, base, 0));
    assert(stack_files(tree, cfg, base, s) =~= tree_files(tree, cfg, base, base, 0));
    lemma_walk_from(tree, cfg, base, s, Seq::empty(), tree_listed(tree, cfg, base, base, 0) + 1);
}

} // verus!
