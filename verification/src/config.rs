//! Settings as stored in the key-value table, devices, and credential keys.

use vstd::prelude::*;
use crate::error::AlbumError;
use crate::models::{DeviceRow, SettingsDto, SettingsForm};
use crate::text::{
    ascii_lower, chars_of, dec_digits, digit_char, lower_seq, push_char, push_decimal, push_str, texts,
    to_ascii_lower,
};

verus! {

// ---------------------------------------------------------------------------------------
// Outside crate: JSON lists of strings
// ---------------------------------------------------------------------------------------

/// What `serde_json::from_str::<Vec<String>>` makes of a text: the list, or the rendered
/// error.
pub uninterp spec fn json_decode_strings(text: Seq<char>) -> Result<Seq<Seq<char>>, Seq<char>>;

/// Reads a JSON array of strings with `serde_json::from_str`; named `json_decode_strings`.
#[verifier::external_body]
fn decode_string_list(text: &str) -> (r: Result<Vec<String>, String>)
    ensures
        json_decode_strings(text@) == match r {
            Ok(v) => Ok(texts(v@)),
            Err(m) => Err(m@),
        },
{
    serde_json::from_str::<Vec<String>>(text).map_err(|e| e.to_string())
}

/// A lower-case hexadecimal digit (`n < 16`).
pub open spec fn hex_digit(n: int) -> char {
    if n < 10 {
        (n + 48) as char
    } else {
        (n + 87) as char
    }
}

/// How `serde_json` writes one character inside a string: `"` and `\` and the control
/// characters below U+0020 are escaped (`\b \t \n \f \r` by name, the others as `\u00xx`),
/// everything else stands as it is.
pub open spec fn json_escape_char(c: char) -> Seq<char> {
    if c == '"' {
        seq!['\\', '"']
    } else if c == '\\' {
        seq!['\\', '\\']
    } else if c == '\x08' {
        seq!['\\', 'b']
    } else if c == '\t' {
        seq!['\\', 't']
    } else if c == '\n' {
        seq!['\\', 'n']
    } else if c == '\x0c' {
        seq!['\\', 'f']
    } else if c == '\r' {
        seq!['\\', 'r']
    } else if (c as u32) < 0x20 {
        seq!['\\', 'u', '0', '0', hex_digit((c as int) / 16), hex_digit((c as int) % 16)]
    } else {
        seq![c]
    }
}

pub open spec fn json_escaped(s: Seq<char>) -> Seq<char>
    decreases s.len(),
{
    if s.len() == 0 {
        Seq::empty()
    } else {
        json_escaped(s.drop_last()) + json_escape_char(s.last())
    }
}

/// The strings of `v` in quotes, separated by `,`.
pub open spec fn json_items(v: Seq<Seq<char>>) -> Seq<char>
    decreases v.len(),
{
    if v.len() == 0 {
        Seq::empty()
    } else if v.len() == 1 {
        seq!['"'] + json_escaped(v[0]) + seq!['"']
    } else {
        json_items(v.drop_last()) + seq![','] + seq!['"'] + json_escaped(v.last()) + seq!['"']
    }
}

/// The compact JSON array of the strings of `v`, as `serde_json::to_string` writes it.
pub open spec fn json_array(v: Seq<Seq<char>>) -> Seq<char> {
    seq!['['] + json_items(v) + seq![']']
}

/// Writes a list of strings as a JSON array with `serde_json::to_string`. Serializing a
/// `Vec<String>` cannot fail (no `Serialize` impl of it errors, and it has no map); the text
/// is `json_array` of the list, and `serde_json::from_str` reads that list back from it.
#[verifier::external_body]
fn encode_string_list(items: &Vec<String>) -> (r: Result<String, String>)
    ensures
        r is Ok,
        r matches Ok(t) ==> t@ == json_array(texts(items@)),
        r matches Ok(t) ==> json_decode_strings(t@) is Ok && json_decode_strings(t@)->Ok_0 == texts(items@),
{
    serde_json::to_string(items).map_err(|e| e.to_string())
}

// ---------------------------------------------------------------------------------------
// Scalars as text
// ---------------------------------------------------------------------------------------

pub open spec fn is_digit(c: char) -> bool {
    '0' <= c && c <= '9'
}

pub open spec fn all_digits(s: Seq<char>) -> bool {
    forall|i: int| 0 <= i < s.len() ==> is_digit(#[trigger] s[i])
}

/// The number that a string of decimal digits denotes.
pub open spec fn digits_value(s: Seq<char>) -> int
    decreases s.len(),
{
    if s.len() == 0 {
        0
    } else {
        digits_value(s.drop_last()) * 10 + (s.last() as int - 48)
    }
}

/// `u32::from_str`: an optional `+`, then one or more decimal digits whose value fits.
pub open spec fn u32_from_text(s: Seq<char>) -> Option<u32> {
    let body = if s.len() > 0 && s[0] == '+' {
        s.drop_first()
    } else {
        s
    };
    if body.len() > 0 && all_digits(body) && digits_value(body) <= u32::MAX {
        Some(digits_value(body) as u32)
    } else {
        None
    }
}

/// `bool::from_str`: exactly `true` or `false`.
pub open spec fn bool_from_text(s: Seq<char>) -> Option<bool> {
    if s == seq!['t', 'r', 'u', 'e'] {
        Some(true)
    } else if s == seq!['f', 'a', 'l', 's', 'e'] {
        Some(false)
    } else {
        None
    }
}

pub open spec fn bool_text(b: bool) -> Seq<char> {
    if b {
        seq!['t', 'r', 'u', 'e']
    } else {
        seq!['f', 'a', 'l', 's', 'e']
    }
}

proof fn lemma_digit_not_sign(c: char)
    requires
        is_digit(c),
    ensures
        c != '+',
{
}

proof fn lemma_digits_value_grows(s: Seq<char>, k: int)
    requires
        0 <= k <= s.len(),
        all_digits(s),
    ensures
        digits_value(s.take(k)) <= digits_value(s),
        digits_value(s) >= 0,
    decreases s.len() - k,
{
    if k < s.len() {
        lemma_digits_value_grows(s, k + 1);
        let t = s.take(k + 1);
        assert(t.drop_last() =~= s.take(k));
        assert(is_digit(s[k]));
        lemma_digits_value_nonneg(s.take(k));
    } else {
        assert(s.take(k) =~= s);
        lemma_digits_value_nonneg(s);
    }
}

proof fn lemma_digits_value_nonneg(s: Seq<char>)
    requires
        all_digits(s),
    ensures
        digits_value(s) >= 0,
    decreases s.len(),
{
    if s.len() > 0 {
        assert(is_digit(s[s.len() - 1]));
        lemma_digits_value_nonneg(s.drop_last());
    }
}

/// Parses a stored `u32` as `str::parse::<u32>` does.
pub fn parse_u32_text(s: &str) -> (r: Option<u32>)
    ensures
        r == u32_from_text(s@),
{
    let cs = chars_of(s);
    let n = cs.len();
    let start: usize = if n > 0 && cs[0] == '+' { 1 } else { 0 };
    let ghost body = if s@.len() > 0 && s@[0] == '+' {
        s@.drop_first()
    } else {
        s@
    };
    assert(body =~= cs@.subrange(start as int, n as int));
    if start == n {
        assert(body.len() == 0);
        return None;
    }
    let mut v: u64 = 0;
    let mut i: usize = start;
    while i < n
        invariant
            start <= i <= n,
            n == cs@.len(),
            body == cs@.subrange(start as int, n as int),
            u32_from_text(s@) == (if body.len() > 0 && all_digits(body) && digits_value(body) <= u32::MAX {
                Some(digits_value(body) as u32)
            } else {
                None
            }),
            v <= u32::MAX,
            all_digits(body.take(i - start)),
            v == digits_value(body.take(i - start)),
        decreases n - i,
    {
        let c = cs[i];
        if !('0' <= c && c <= '9') {
            assert(body[i - start] == c);
            assert(!is_digit(body[i - start]));
            assert(!all_digits(body));
            return None;
        }
        let d = (c as u32 - 48) as u64;
        let ghost t = body.take(i - start + 1);
        assert(t.drop_last() =~= body.take(i - start));
        assert(t.last() == c);
        v = v * 10 + d;
        assert forall|j: int| 0 <= j < t.len() implies is_digit(#[trigger] t[j]) by {
            if j < t.len() - 1 {
                assert(t[j] == t.drop_last()[j]);
            }
        }
        assert(v == digits_value(t));
        if v > 4294967295 {
            proof {
                if all_digits(body) {
                    lemma_digits_value_grows(body, i - start + 1);
                }
            }
            return None;
        }
        i = i + 1;
    }
    assert(body.take(n - start) =~= body);
    Some(v as u32)
}

/// Parses a stored flag as `str::parse::<bool>` does.
pub fn parse_bool_text(s: &str) -> (r: Option<bool>)
    ensures
        r == bool_from_text(s@),
{
    let cs = chars_of(s);
    if cs.len() == 4 && cs[0] == 't' && cs[1] == 'r' && cs[2] == 'u' && cs[3] == 'e' {
        assert(cs@ =~= seq!['t', 'r', 'u', 'e']);
        Some(true)
    } else if cs.len() == 5 && cs[0] == 'f' && cs[1] == 'a' && cs[2] == 'l' && cs[3] == 's' && cs[4] == 'e' {
        assert(cs@ =~= seq!['f', 'a', 'l', 's', 'e']);
        Some(false)
    } else {
        proof {
            if cs@ == seq!['t', 'r', 'u', 'e'] {
                assert(cs@[0] == 't' && cs@[1] == 'r' && cs@[2] == 'u' && cs@[3] == 'e');
            }
            if cs@ == seq!['f', 'a', 'l', 's', 'e'] {
                assert(cs@[0] == 'f' && cs@[1] == 'a' && cs@[2] == 'l' && cs@[3] == 's' && cs@[4] == 'e');
            }
        }
        None
    }
}

proof fn lemma_dec_digits_parse(n: nat)
    ensures
        all_digits(dec_digits(n)),
        digits_value(dec_digits(n)) == n,
        dec_digits(n).len() > 0,
        is_digit(dec_digits(n)[0]),
    decreases n,
{
    if n < 10 {
        let s = dec_digits(n);
        assert(s == seq![digit_char(n)]);
        assert(s.drop_last() =~= Seq::<char>::empty());
        assert(digit_char(n) as int == n + 48);
        assert(is_digit(s[0]));
        assert(s.last() == digit_char(n));
        assert(digits_value(s) == digits_value(s.drop_last()) * 10 + (s.last() as int - 48));
        assert(digits_value(s.drop_last()) == 0);
        assert forall|i: int| 0 <= i < s.len() implies is_digit(#[trigger] s[i]) by {
            assert(i == 0);
        }
    } else {
        lemma_dec_digits_parse(n / 10);
        let s = dec_digits(n);
        let p = dec_digits(n / 10);
        assert(s == p.push(digit_char(n % 10)));
        assert(s.drop_last() =~= p);
        assert(digit_char(n % 10) as int == n % 10 + 48);
        assert(is_digit(digit_char(n % 10)));
        assert(s.last() == digit_char(n % 10));
        assert(digits_value(s) == digits_value(p) * 10 + (n % 10));
        assert((n / 10) * 10 + n % 10 == n);
        assert(s[0] == p[0]);
        assert forall|i: int| 0 <= i < s.len() implies is_digit(#[trigger] s[i]) by {
            if i < p.len() {
                assert(s[i] == p[i]);
            } else {
                assert(s[i] == digit_char(n % 10));
            }
        }
    }
}

/// A number written as text reads back as the same number.
pub proof fn law_u32_text_round_trip(n: u32)
    ensures
        u32_from_text(dec_digits(n as nat)) == Some(n),
{
    lemma_dec_digits_parse(n as nat);
    lemma_digit_not_sign(dec_digits(n as nat)[0]);
}

// ---------------------------------------------------------------------------------------
// Settings
// ---------------------------------------------------------------------------------------

pub const K_RETENTION: &'static str = "retention_days";

pub const K_AUTOSTART: &'static str = "auto_start";

pub const K_CONCURRENCY: &'static str = "concurrency";

pub const K_INCLUDE: &'static str = "include_globs";

pub const K_EXCLUDE: &'static str = "exclude_globs";

/// The inclusion patterns used until the user sets some.
pub open spec fn default_include_globs() -> Seq<Seq<char>> {
    seq!["DCIM/**/*"@, "Pictures/**/*"@, "Tencent/MicroMsg/WeiXin/**/*"@, "Tencent/QQ_Images/**/*"@, "Movies/**/*"@]
}

/// The exclusion patterns used until the user sets some.
pub open spec fn default_exclude_globs() -> Seq<Seq<char>> {
    seq!["**/.thumbnails/**"@, "**/cache/**"@, "**/*.tmp"@]
}

/// The default inclusion patterns.
pub fn default_includes() -> (r: Vec<String>)
    ensures
        texts(r@) == default_include_globs(),
{
    let mut v: Vec<String> = Vec::new();
    v.push(String::from_str("DCIM/**/*"));
    v.push(String::from_str("Pictures/**/*"));
    v.push(String::from_str("Tencent/MicroMsg/WeiXin/**/*"));
    v.push(String::from_str("Tencent/QQ_Images/**/*"));
    v.push(String::from_str("Movies/**/*"));
    assert(texts(v@) =~= default_include_globs());
    v
}

/// The default exclusion patterns.
pub fn default_excludes() -> (r: Vec<String>)
    ensures
        texts(r@) == default_exclude_globs(),
{
    let mut v: Vec<String> = Vec::new();
    v.push(String::from_str("**/.thumbnails/**"));
    v.push(String::from_str("**/cache/**"));
    v.push(String::from_str("**/*.tmp"));
    assert(texts(v@) =~= default_exclude_globs());
    v
}

/// The settings as values.
pub struct SettingsView {
    pub retention_days: u32,
    pub auto_start: bool,
    pub concurrency: u32,
    pub include_globs: Seq<Seq<char>>,
    pub exclude_globs: Seq<Seq<char>>,
}

impl View for SettingsDto {
    type V = SettingsView;

    open spec fn view(&self) -> SettingsView {
        SettingsView {
            retention_days: self.retention_days,
            auto_start: self.auto_start,
            concurrency: self.concurrency,
            include_globs: texts(self.include_globs@),
            exclude_globs: texts(self.exclude_globs@),
        }
    }
}

impl View for SettingsForm {
    type V = SettingsView;

    open spec fn view(&self) -> SettingsView {
        SettingsView {
            retention_days: self.retention_days,
            auto_start: self.auto_start,
            concurrency: self.concurrency,
            include_globs: texts(self.include_globs@),
            exclude_globs: texts(self.exclude_globs@),
        }
    }
}

pub open spec fn opt_text(o: Option<String>) -> Option<Seq<char>> {
    match o {
        Some(s) => Some(s@),
        None => None,
    }
}

/// A stored number: the default when absent or unreadable.
pub open spec fn setting_u32(raw: Option<Seq<char>>, default: u32) -> u32 {
    match raw {
        Some(t) => match u32_from_text(t) {
            Some(v) => v,
            None => default,
        },
        None => default,
    }
}

/// A stored flag: the default when absent or unreadable.
pub open spec fn setting_bool(raw: Option<Seq<char>>, default: bool) -> bool {
    match raw {
        Some(t) => match bool_from_text(t) {
            Some(v) => v,
            None => default,
        },
        None => default,
    }
}

/// A stored pattern list: the default when absent; an unreadable one is an error.
pub open spec fn setting_list(raw: Option<Seq<char>>, default: Seq<Seq<char>>) -> Result<Seq<Seq<char>>, Seq<char>> {
    match raw {
        Some(t) => json_decode_strings(t),
        None => Ok(default),
    }
}

/// The settings that the stored values (by key) describe, or the configuration error.
pub open spec fn load_settings(
    retention: Option<Seq<char>>,
    auto_start: Option<Seq<char>>,
    concurrency: Option<Seq<char>>,
    include_raw: Option<Seq<char>>,
    exclude_raw: Option<Seq<char>>,
) -> Result<SettingsView, Seq<char>> {
    match setting_list(include_raw, default_include_globs()) {
        Err(m) => Err(m),
        Ok(inc) => match setting_list(exclude_raw, default_exclude_globs()) {
            Err(m) => Err(m),
            Ok(exc) => Ok(
                SettingsView {
                    retention_days: setting_u32(retention, 30),
                    auto_start: setting_bool(auto_start, false),
                    concurrency: setting_u32(concurrency, 4),
                    include_globs: inc,
                    exclude_globs: exc,
                },
            ),
        },
    }
}

fn read_u32_setting(raw: &Option<String>, default: u32) -> (r: u32)
    ensures
        r == setting_u32(opt_text(*raw), default),
{
    match raw {
        Some(t) => match parse_u32_text(t.as_str()) {
            Some(v) => v,
            None => default,
        },
        None => default,
    }
}

fn read_bool_setting(raw: &Option<String>, default: bool) -> (r: bool)
    ensures
        r == setting_bool(opt_text(*raw), default),
{
    match raw {
        Some(t) => match parse_bool_text(t.as_str()) {
            Some(v) => v,
            None => default,
        },
        None => default,
    }
}

fn read_list_setting(raw: &Option<String>, is_include: bool) -> (r: Result<Vec<String>, AlbumError>)
    ensures
        (match setting_list(opt_text(*raw), if is_include { default_include_globs() } else { default_exclude_globs() }) {
            Ok(l) => r matches Ok(v) && texts(v@) == l,
            Err(m) => r matches Err(AlbumError::Config(e)) && e@ == m,
        }),
{
    match raw {
        Some(t) => match decode_string_list(t.as_str()) {
            Ok(v) => Ok(v),
            Err(m) => Err(AlbumError::Config(m)),
        },
        None => if is_include {
            Ok(default_includes())
        } else {
            Ok(default_excludes())
        },
    }
}

/// The settings from the values stored under `retention_days`, `auto_start`, `concurrency`,
/// `include_globs` and `exclude_globs` (`None` for a key not stored). Numbers and flags that
/// do not parse fall back to their defaults; a pattern list that is not a JSON array of
/// strings is a configuration error.
pub fn settings_from_stored(
    retention: Option<String>,
    auto_start: Option<String>,
    concurrency: Option<String>,
    include_raw: Option<String>,
    exclude_raw: Option<String>,
) -> (r: Result<SettingsDto, AlbumError>)
    ensures
        (match load_settings(opt_text(retention), opt_text(auto_start), opt_text(concurrency), opt_text(include_raw), opt_text(exclude_raw)) {
            Ok(s) => r matches Ok(d) && d@ == s,
            Err(m) => r matches Err(AlbumError::Config(e)) && e@ == m,
        }),
{
    let retention_days = read_u32_setting(&retention, 30);
    let auto = read_bool_setting(&auto_start, false);
    let conc = read_u32_setting(&concurrency, 4);
    let include_globs = match read_list_setting(&include_raw, true) {
        Ok(v) => v,
        Err(e) => {
            return Err(e);
        },
    };
    let exclude_globs = match read_list_setting(&exclude_raw, false) {
        Ok(v) => v,
        Err(e) => {
            return Err(e);
        },
    };
    Ok(SettingsDto { retention_days, auto_start: auto, concurrency: conc, include_globs, exclude_globs })
}

/// The key-value pairs that store the settings, in writing order.
pub open spec fn store_settings(s: SettingsView) -> Seq<(Seq<char>, Seq<char>)> {
    seq![
        ("retention_days"@, dec_digits(s.retention_days as nat)),
        ("auto_start"@, bool_text(s.auto_start)),
        ("concurrency"@, dec_digits(s.concurrency as nat)),
        ("include_globs"@, json_array(s.include_globs)),
        ("exclude_globs"@, json_array(s.exclude_globs)),
    ]
}

pub open spec fn pairs_view(v: Seq<(String, String)>) -> Seq<(Seq<char>, Seq<char>)> {
    v.map_values(|p: (String, String)| (p.0@, p.1@))
}

fn bool_to_text(b: bool) -> (r: String)
    ensures
        r@ == bool_text(b),
{
    let mut s = String::new();
    if b {
        push_char(&mut s, 't');
        push_char(&mut s, 'r');
        push_char(&mut s, 'u');
        push_char(&mut s, 'e');
    } else {
        push_char(&mut s, 'f');
        push_char(&mut s, 'a');
        push_char(&mut s, 'l');
        push_char(&mut s, 's');
        push_char(&mut s, 'e');
    }
    assert(s@ =~= bool_text(b));
    s
}

fn u32_to_text(n: u32) -> (r: String)
    ensures
        r@ == dec_digits(n as nat),
{
    let mut s = String::new();
    push_decimal(&mut s, n as u64);
    assert(s@ =~= dec_digits(n as nat));
    s
}

/// The key-value pairs to write for the submitted settings. What is written is what is
/// read back: loading the written values gives the submitted settings.
pub fn settings_to_stored(form: &SettingsForm) -> (r: Result<Vec<(String, String)>, AlbumError>)
    ensures
        r matches Ok(v) && pairs_view(v@) == store_settings(form@),
        r matches Ok(v) && v@.len() == 5 && load_settings(
            Some(v@[0].1@),
            Some(v@[1].1@),
            Some(v@[2].1@),
            Some(v@[3].1@),
            Some(v@[4].1@),
        ) == Ok::<SettingsView, Seq<char>>(form@),
{
    let include_json = match encode_string_list(&form.include_globs) {
        Ok(t) => t,
        Err(m) => {
            return Err(AlbumError::Config(m));
        },
    };
    let exclude_json = match encode_string_list(&form.exclude_globs) {
        Ok(t) => t,
        Err(m) => {
            return Err(AlbumError::Config(m));
        },
    };
    let mut v: Vec<(String, String)> = Vec::new();
    v.push((String::from_str(K_RETENTION), u32_to_text(form.retention_days)));
    v.push((String::from_str(K_AUTOSTART), bool_to_text(form.auto_start)));
    v.push((String::from_str(K_CONCURRENCY), u32_to_text(form.concurrency)));
    v.push((String::from_str(K_INCLUDE), include_json));
    v.push((String::from_str(K_EXCLUDE), exclude_json));
    assert(pairs_view(v@) =~= store_settings(form@));
    proof {
        law_u32_text_round_trip(form.retention_days);
        law_u32_text_round_trip(form.concurrency);
        assert(bool_from_text(bool_text(form.auto_start)) == Some(form.auto_start));
        let l = load_settings(Some(v@[0].1@), Some(v@[1].1@), Some(v@[2].1@), Some(v@[3].1@), Some(v@[4].1@));
        assert(l->Ok_0 == form@);
    }
    Ok(v)
}

// ---------------------------------------------------------------------------------------
// Devices and credentials
// ---------------------------------------------------------------------------------------

/// The credential-store account of a device: `user@host:port`.
pub open spec fn credential_key(username: Seq<char>, host: Seq<char>, port: u16) -> Seq<char> {
    username + seq!['@'] + host + seq![':'] + dec_digits(port as nat)
}

/// The credential-store account name under which a device's password is kept.
pub fn key_for(username: &str, host: &str, port: u16) -> (r: String)
    ensures
        r@ == credential_key(username@, host@, port),
{
    let mut s = String::new();
    push_str(&mut s, username);
    push_char(&mut s, '@');
    push_str(&mut s, host);
    push_char(&mut s, ':');
    push_decimal(&mut s, port as u64);
    assert(s@ =~= credential_key(username@, host@, port));
    s
}

/// `pat` occurs somewhere in `s`.
pub open spec fn contains_text(s: Seq<char>, pat: Seq<char>) -> bool {
    exists|i: int| 0 <= i && i + pat.len() <= s.len() && #[trigger] s.subrange(i, i + pat.len()) == pat
}

fn occurs_at(cs: &Vec<char>, pat: &Vec<char>, i: usize) -> (r: bool)
    requires
        i + pat@.len() <= cs@.len(),
    ensures
        r == (cs@.subrange(i as int, i + pat@.len()) == pat@),
{
    let mut j: usize = 0;
    while j < pat.len()
        invariant
            j <= pat@.len(),
            i + pat@.len() <= cs.len(),
            forall|t: int| 0 <= t < j ==> cs@[i + t] == pat@[t],
        decreases pat.len() - j,
    {
        if cs[i + j] != pat[j] {
            assert(cs@.subrange(i as int, i + pat@.len())[j as int] != pat@[j as int]);
            return false;
        }
        j = j + 1;
    }
    assert(cs@.subrange(i as int, i + pat@.len()) =~= pat@);
    true
}

fn contains_chars(cs: &Vec<char>, pat: &Vec<char>) -> (r: bool)
    ensures
        r == contains_text(cs@, pat@),
{
    if pat.len() > cs.len() {
        return false;
    }
    if pat.len() == 0 {
        assert(0 + pat@.len() <= cs@.len());
        assert(cs@.subrange(0, 0) =~= pat@);
        return true;
    }
    let last = cs.len() - pat.len();
    let mut i: usize = 0;
    while i <= last
        invariant
            last + pat@.len() == cs@.len(),
            last < usize::MAX,
            i <= last + 1,
            forall|k: int| 0 <= k < i ==> #[trigger] cs@.subrange(k, k + pat@.len()) != pat@,
        decreases last + 1 - i,
    {
        if occurs_at(cs, pat, i) {
            assert(cs@.subrange(i as int, i + pat@.len()) == pat@);
            return true;
        }
        i = i + 1;
    }
    false
}

/// The credential store's message for an entry that does not exist: it mentions `no entry`,
/// or `not found` in any ASCII case.
pub open spec fn is_missing_entry_message(msg: Seq<char>) -> bool {
    contains_text(msg, "no entry"@) || contains_text(lower_seq(msg), "not found"@)
}

/// Whether a failed deletion only says the credential was not there (deleting it again
/// then counts as done).
pub fn credential_missing(msg: &str) -> (r: bool)
    ensures
        r == is_missing_entry_message(msg@),
{
    let cs = chars_of(msg);
    let no_entry = chars_of("no entry");
    if contains_chars(&cs, &no_entry) {
        return true;
    }
    let mut lower: Vec<char> = Vec::new();
    let mut i: usize = 0;
    while i < cs.len()
        invariant
            i <= cs@.len(),
            lower@ == lower_seq(cs@.take(i as int)),
        decreases cs.len() - i,
    {
        lower.push(to_ascii_lower(cs[i]));
        assert(lower@ =~= lower_seq(cs@.take(i + 1)));
        i = i + 1;
    }
    assert(cs@.take(cs@.len() as int) =~= cs@);
    let not_found = chars_of("not found");
    contains_chars(&lower, &not_found)
}

/// The error for a password that cannot be read.
pub fn credential_read_error(msg: &str) -> (r: AlbumError)
    ensures
        r matches AlbumError::Keyring(m) && m@ == "读取凭据失败: "@ + msg@,
{
    let mut m = String::new();
    push_str(&mut m, "读取凭据失败: ");
    push_str(&mut m, msg);
    AlbumError::Keyring(m)
}

/// The full configuration of a device (with its password, held in memory only).
#[derive(Debug)]
pub struct DeviceConfig {
    pub id: i64,
    pub name: String,
    pub host: String,
    pub port: u16,
    pub username: String,
    pub password: String,
    pub backup_root: String,
}

impl DeviceConfig {
    /// Combines a device row with the password read for it.
    pub fn from_row(row: DeviceRow, password: String) -> (r: DeviceConfig)
        ensures
            r.id == row.id,
            r.name == row.name,
            r.host == row.host,
            r.port == row.port as u16,
            r.username == row.username,
            r.password == password,
            r.backup_root == row.backup_root,
    {
        DeviceConfig {
            id: row.id,
            name: row.name,
            host: row.host,
            port: row.port as u16,
            username: row.username,
            password,
            backup_root: row.backup_root,
        }
    }
}

/// The active device among the active rows (ordered by id): the last one.
pub fn active_device(rows: Vec<DeviceRow>) -> (r: Option<DeviceRow>)
    ensures
        rows@.len() == 0 ==> r is None,
        rows@.len() > 0 ==> r == Some(rows@.last()),
{
    let mut rows = rows;
    rows.pop()
}

} // verus!
