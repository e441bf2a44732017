//! Character-level helpers shared by the path, timestamp and settings code.

use vstd::prelude::*;

verus! {

/// Appends one character to a `String` (std's `String::push`).
#[verifier::external_body]
pub fn push_char(s: &mut String, c: char)
    ensures
        final(s)@ == old(s)@.push(c),
{
    s.push(c);
}

/// The characters of `s`, in order.
pub fn chars_of(s: &str) -> (r: Vec<char>)
    ensures
        r@ == s@,
{
    let mut r: Vec<char> = Vec::new();
    for c in it: s.chars()
        invariant
            r@ == it.seq().take(it.index() as int),
            it.seq() == s@,
    {
        r.push(c);
        assert(it.seq().take(it.index() + 1) =~= r@);
    }
    r
}

} // verus!

verus! {

/// The ASCII digit for `d` (`d < 10`).
pub open spec fn digit_char(d: nat) -> char {
    (d + 48) as char
}

/// Decimal rendering of a natural number, most significant digit first, no leading zeros.
pub open spec fn dec_digits(n: nat) -> Seq<char>
    decreases n,
{
    if n < 10 {
        seq![digit_char(n)]
    } else {
        dec_digits(n / 10).push(digit_char(n % 10))
    }
}

/// `s` left-padded with `'0'` up to width `w`.
pub open spec fn zero_pad(s: Seq<char>, w: nat) -> Seq<char> {
    if s.len() < w {
        Seq::new((w - s.len()) as nat, |i: int| '0') + s
    } else {
        s
    }
}

/// What Rust's `{:0w}` produces for an integer: the sign, then the magnitude zero-padded
/// so that sign and digits together take at least `w` characters.
pub open spec fn padded(v: int, w: nat) -> Seq<char> {
    if v < 0 {
        seq!['-'] + zero_pad(dec_digits((-v) as nat), if w > 0 { (w - 1) as nat } else { 0 })
    } else {
        zero_pad(dec_digits(v as nat), w)
    }
}

pub proof fn lemma_dec_digits_len(n: nat)
    ensures
        n < 10 ==> dec_digits(n).len() == 1,
        dec_digits(n).len() >= 1,
    decreases n,
{
    if n >= 10 {
        lemma_dec_digits_len(n / 10);
    }
}

fn digit(d: u64) -> (c: char)
    requires
        d < 10,
    ensures
        c == digit_char(d as nat),
{
    let b: u8 = (d as u8) + 48;
    b as char
}

/// Appends the decimal digits of `n`.
pub fn push_decimal(out: &mut String, n: u64)
    ensures
        final(out)@ == old(out)@ + dec_digits(n as nat),
    decreases n,
{
    if n >= 10 {
        push_decimal(out, n / 10);
    }
    push_char(out, digit(n % 10));
    proof {
        if n >= 10 {
            assert(old(out)@ + dec_digits(n as nat) =~= old(out)@ + dec_digits((n / 10) as nat) + seq![digit_char((n % 10) as nat)]);
        } else {
            assert(n % 10 == n);
        }
    }
}

/// Number of decimal digits of `n`.
pub fn decimal_len(n: u64) -> (r: usize)
    ensures
        r == dec_digits(n as nat).len(),
    decreases n,
{
    proof {
        lemma_dec_digits_len(n as nat);
    }
    if n < 10 {
        1
    } else {
        let k = decimal_len(n / 10);
        proof {
            lemma_dec_digits_len((n / 10) as nat);
            lemma_dec_digits_bound((n / 10) as nat);
        }
        k + 1
    }
}

/// Ten to the power `k`.
pub open spec fn pow10(k: nat) -> nat
    decreases k,
{
    if k == 0 {
        1
    } else {
        10 * pow10((k - 1) as nat)
    }
}

pub proof fn lemma_dec_digits_at_most(n: nat, k: nat)
    requires
        k >= 1,
        n < pow10(k),
    ensures
        dec_digits(n).len() <= k,
    decreases n,
{
    if n >= 10 {
        assert(k >= 2) by {
            if k == 1 {
                assert(pow10(1) == 10 * pow10(0));
            }
        }
        let p = pow10((k - 1) as nat);
        assert(pow10(k) == 10 * p);
        assert(n / 10 < p) by (nonlinear_arith)
            requires
                n < 10 * p,
        ;
        lemma_dec_digits_at_most(n / 10, (k - 1) as nat);
    }
}

proof fn lemma_dec_digits_bound(n: nat)
    requires
        n <= u64::MAX,
    ensures
        dec_digits(n).len() <= 20,
{
    reveal_with_fuel(pow10, 21);
    assert(pow10(20) == 100_000_000_000_000_000_000nat);
    lemma_dec_digits_at_most(n, 20);
}

/// Appends `n` zero-padded to width `w` (Rust's `{:0w}` for an unsigned value).
pub fn push_zero_padded(out: &mut String, n: u64, w: usize)
    ensures
        final(out)@ == old(out)@ + zero_pad(dec_digits(n as nat), w as nat),
{
    let len = decimal_len(n);
    let mut k: usize = len;
    while k < w
        invariant
            len == dec_digits(n as nat).len(),
            len <= k,
            k <= w || k == len,
            out@ == old(out)@ + Seq::new((k - len) as nat, |i: int| '0'),
        decreases w - k,
    {
        push_char(out, '0');
        assert(out@ =~= old(out)@ + Seq::new((k + 1 - len) as nat, |i: int| '0'));
        k = k + 1;
    }
    let ghost pad = out@;
    push_decimal(out, n);
    proof {
        let ds = dec_digits(n as nat);
        if len < w {
            assert(k == w);
            assert(zero_pad(ds, w as nat) == Seq::new((w - len) as nat, |i: int| '0') + ds);
        } else {
            assert(k == len);
            assert(Seq::new((k - len) as nat, |i: int| '0') =~= Seq::<char>::empty());
            assert(pad =~= old(out)@);
        }
        assert(out@ =~= old(out)@ + zero_pad(ds, w as nat));
    }
}

/// Appends `v` formatted as Rust's `{:0w}` does.
pub fn push_padded(out: &mut String, v: i64, w: usize)
    requires
        v > i64::MIN,
    ensures
        final(out)@ == old(out)@ + padded(v as int, w as nat),
{
    if v < 0 {
        push_char(out, '-');
        let ww: usize = if w > 0 { w - 1 } else { 0 };
        push_zero_padded(out, (-v) as u64, ww);
        assert(out@ =~= old(out)@ + padded(v as int, w as nat));
    } else {
        push_zero_padded(out, v as u64, w);
    }
}

} // verus!

verus! {

/// ASCII lower-casing of one character (`char::to_ascii_lowercase`).
pub open spec fn ascii_lower(c: char) -> char {
    if 'A' <= c && c <= 'Z' {
        ((c as int) + 32) as char
    } else {
        c
    }
}

/// ASCII lower-casing of a text (`str::to_ascii_lowercase`).
pub open spec fn lower_seq(s: Seq<char>) -> Seq<char> {
    s.map_values(|c: char| ascii_lower(c))
}

pub fn to_ascii_lower(c: char) -> (r: char)
    ensures
        r == ascii_lower(c),
{
    if 'A' <= c && c <= 'Z' {
        let b: u8 = (c as u8) + 32;
        b as char
    } else {
        c
    }
}

/// Appends `cs[from..to]`.
pub fn push_range(out: &mut String, cs: &Vec<char>, from: usize, to: usize)
    requires
        from <= to <= cs@.len(),
    ensures
        final(out)@ == old(out)@ + cs@.subrange(from as int, to as int),
{
    let mut i: usize = from;
    while i < to
        invariant
            from <= i <= to,
            to <= cs@.len(),
            out@ == old(out)@ + cs@.subrange(from as int, i as int),
        decreases to - i,
    {
        push_char(out, cs[i]);
        assert(out@ =~= old(out)@ + cs@.subrange(from as int, i + 1));
        i = i + 1;
    }
}

/// `s` with every character equal to `from` replaced by `to`.
pub open spec fn replace_char(s: Seq<char>, from: char, to: char) -> Seq<char> {
    s.map_values(|c: char| if c == from { to } else { c })
}

/// First index at or after `i` holding `c`.
pub open spec fn find_char_from(s: Seq<char>, c: char, i: int) -> Option<int>
    decreases s.len() - i,
{
    if i >= s.len() || i < 0 {
        None
    } else if s[i] == c {
        Some(i)
    } else {
        find_char_from(s, c, i + 1)
    }
}

/// Index of the first `c` in `cs` at or after `from`.
pub fn find_char(cs: &Vec<char>, c: char, from: usize) -> (r: Option<usize>)
    requires
        from <= cs@.len(),
    ensures
        r matches Some(k) ==> find_char_from(cs@, c, from as int) == Some(k as int) && from <= k < cs@.len()
            && cs@[k as int] == c,
        r is None ==> find_char_from(cs@, c, from as int) is None,
{
    let mut i = from;
    while i < cs.len()
        invariant
            from <= i <= cs@.len(),
            find_char_from(cs@, c, from as int) == find_char_from(cs@, c, i as int),
        decreases cs.len() - i,
    {
        if cs[i] == c {
            return Some(i);
        }
        i = i + 1;
    }
    None
}

} // verus!

verus! {

/// Rust's `Display` of an integer: a minus sign for negative values, then the digits.
pub open spec fn signed_dec(v: int) -> Seq<char> {
    if v < 0 {
        seq!['-'] + dec_digits((-v) as nat)
    } else {
        dec_digits(v as nat)
    }
}

/// Appends `v` as `Display` renders it.
pub fn push_signed(out: &mut String, v: i64)
    ensures
        final(out)@ == old(out)@ + signed_dec(v as int),
{
    if v < 0 {
        push_char(out, '-');
        let mag: u64 = (0i128 - (v as i128)) as u64;
        push_decimal(out, mag);
        assert(out@ =~= old(out)@ + signed_dec(v as int));
    } else {
        push_decimal(out, v as u64);
        assert(out@ =~= old(out)@ + signed_dec(v as int));
    }
}

/// Appends a text.
pub fn push_str(out: &mut String, s: &str)
    ensures
        final(out)@ == old(out)@ + s@,
{
    out.append(s);
}

} // verus!

verus! {

/// The texts of a list of strings.
pub open spec fn texts(v: Seq<String>) -> Seq<Seq<char>> {
    v.map_values(|s: String| s@)
}

/// A copy of a list of strings.
pub fn clone_strings(v: &[String]) -> (r: Vec<String>)
    ensures
        r@ == v@,
{
    let mut r: Vec<String> = Vec::new();
    let mut i: usize = 0;
    while i < v.len()
        invariant
            i <= v@.len(),
            r@ == v@.take(i as int),
        decreases v.len() - i,
    {
        r.push(v[i].clone());
        assert(r@ =~= v@.take(i + 1));
        i = i + 1;
    }
    assert(v@.take(v@.len() as int) =~= v@);
    r
}

/// `s` without its leading `/` characters.
pub open spec fn trim_leading_slashes(s: Seq<char>) -> Seq<char>
    decreases s.len(),
{
    if s.len() > 0 && s[0] == '/' {
        trim_leading_slashes(s.drop_first())
    } else {
        s
    }
}

/// `s` without its trailing `/` characters.
pub open spec fn trim_trailing_slashes(s: Seq<char>) -> Seq<char>
    decreases s.len(),
{
    if s.len() > 0 && s.last() == '/' {
        trim_trailing_slashes(s.drop_last())
    } else {
        s
    }
}

/// Index of the first character of `cs` that is not `/`.
pub fn leading_slashes_end(cs: &Vec<char>) -> (r: usize)
    ensures
        r <= cs@.len(),
        trim_leading_slashes(cs@) == cs@.subrange(r as int, cs@.len() as int),
{
    let n = cs.len();
    let mut i: usize = 0;
    assert(cs@.subrange(0, n as int) =~= cs@);
    while i < n && cs[i] == '/'
        invariant
            i <= n,
            n == cs@.len(),
            trim_leading_slashes(cs@) == trim_leading_slashes(cs@.subrange(i as int, n as int)),
        decreases n - i,
    {
        assert(cs@.subrange(i as int, n as int).drop_first() =~= cs@.subrange(i + 1, n as int));
        i = i + 1;
    }
    proof {
        r_trim_done(cs@.subrange(i as int, n as int));
    }
    i
}

proof fn r_trim_done(s: Seq<char>)
    requires
        s.len() == 0 || s[0] != '/',
    ensures
        trim_leading_slashes(s) == s,
{
}

/// Index just past the last character of `cs` that is not `/`.
pub fn trailing_slashes_start(cs: &Vec<char>) -> (r: usize)
    ensures
        r <= cs@.len(),
        trim_trailing_slashes(cs@) == cs@.take(r as int),
{
    let n = cs.len();
    let mut i: usize = n;
    assert(cs@.take(n as int) =~= cs@);
    while i > 0 && cs[i - 1] == '/'
        invariant
            i <= n,
            n == cs@.len(),
            trim_trailing_slashes(cs@) == trim_trailing_slashes(cs@.take(i as int)),
        decreases i,
    {
        assert(cs@.take(i as int).drop_last() =~= cs@.take(i - 1));
        i = i - 1;
    }
    i
}

/// A `String` holding `cs[from..to]`.
pub fn string_of_range(cs: &Vec<char>, from: usize, to: usize) -> (r: String)
    requires
        from <= to <= cs@.len(),
    ensures
        r@ == cs@.subrange(from as int, to as int),
{
    let mut out = String::new();
    push_range(&mut out, cs, from, to);
    assert(out@ =~= cs@.subrange(from as int, to as int));
    out
}

/// Whether `p` is a prefix of `cs`.
pub fn has_prefix(cs: &Vec<char>, p: &Vec<char>) -> (r: bool)
    ensures
        r == p@.is_prefix_of(cs@),
{
    if p.len() > cs.len() {
        return false;
    }
    let mut i: usize = 0;
    while i < p.len()
        invariant
            i <= p@.len(),
            p@.len() <= cs@.len(),
            forall|j: int| 0 <= j < i ==> p@[j] == cs@[j],
        decreases p.len() - i,
    {
        if p[i] != cs[i] {
            return false;
        }
        i = i + 1;
    }
    true
}

} // verus!
