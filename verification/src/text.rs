use vstd::prelude::*;

verus! {

// ---------------------------------------------------------------------
// Character-level building blocks
// ---------------------------------------------------------------------

/// Appends one character to a string (std `String::push`).
#[verifier::external_body]
pub(crate) fn push_char(s: &mut String, c: char)
    ensures
        final(s)@ == old(s)@.push(c),
{
    s.push(c);
}

/// Appends a string slice to a string.
pub(crate) fn push_str(s: &mut String, t: &str)
    ensures
        final(s)@ == old(s)@ + t@,
{
    s.append(t);
}

/// Removes the last character of a string (std `String::pop`).
#[verifier::external_body]
pub(crate) fn pop_char(s: &mut String) -> (r: Option<char>)
    ensures
        old(s)@.len() == 0 ==> r is None && final(s)@ == old(s)@,
        old(s)@.len() > 0 ==> r == Some(old(s)@.last()) && final(s)@ == old(s)@.drop_last(),
{
    s.pop()
}

/// Whether two string slices hold the same text (std `<str as PartialEq>::eq`).
#[verifier::external_body]
pub fn same_text(a: &str, b: &str) -> (r: bool)
    ensures
        r == (a@ == b@),
{
    a == b
}

/// The characters of a string slice, in order.
pub fn chars_of(s: &str) -> (v: Vec<char>)
    ensures
        v@ == s@,
{
    let mut v: Vec<char> = Vec::new();
    for c in it: s.chars()
        invariant
            v@ == it.seq().take(it.index()),
    {
        v.push(c);
    }
    v
}

/// Appends a sequence of characters to a string.
pub fn push_chars(s: &mut String, cs: &Vec<char>)
    ensures
        final(s)@ == old(s)@ + cs@,
{
    let mut i: usize = 0;
    while i < cs.len()
        invariant
            i <= cs.len(),
            s@ == old(s)@ + cs@.take(i as int),
        decreases cs.len() - i,
    {
        push_char(s, cs[i]);
        assert(cs@.take(i + 1) == cs@.take(i as int).push(cs@[i as int]));
        i = i + 1;
    }
    assert(cs@.take(cs.len() as int) == cs@);
}

/// A fresh string holding the given characters.
pub fn string_of(cs: &Vec<char>) -> (s: String)
    ensures
        s@ == cs@,
{
    let mut s = String::new();
    push_chars(&mut s, cs);
    s
}

// ---------------------------------------------------------------------
// Decimal notation
// ---------------------------------------------------------------------

/// The character of a decimal digit.
pub open spec fn digit_char(d: int) -> char {
    (48 + d) as char
}

/// Decimal digits of a natural number, most significant first, no leading zeros.
pub open spec fn digits(n: nat) -> Seq<char>
    decreases n,
{
    if n < 10 {
        seq![digit_char(n as int)]
    } else {
        digits(n / 10).push(digit_char((n % 10) as int))
    }
}

/// Decimal notation of an integer, with a leading '-' when it is negative
/// (what Rust's `Display` writes for an integer).
pub open spec fn decimal(n: int) -> Seq<char> {
    if n < 0 {
        seq!['-'] + digits((-n) as nat)
    } else {
        digits(n as nat)
    }
}

fn digit_of(d: u64) -> (c: char)
    requires
        d < 10,
    ensures
        c == digit_char(d as int),
{
    let b: u8 = 48u8 + (d as u8);
    b as char
}

fn push_digits(s: &mut String, n: u64)
    ensures
        final(s)@ == old(s)@ + digits(n as nat),
    decreases n,
{
    if n >= 10 {
        push_digits(s, n / 10);
    }
    push_char(s, digit_of(n % 10));
    proof {
        if n >= 10 {
            assert(old(s)@ + digits(n as nat) == old(s)@ + digits((n / 10) as nat) + seq![digit_char((n % 10) as int)]);
        }
    }
}

/// Appends the decimal notation of `n`.
pub fn push_decimal(s: &mut String, n: i64)
    ensures
        final(s)@ == old(s)@ + decimal(n as int),
{
    if n < 0 {
        push_char(s, '-');
        let m: u64 = if n == i64::MIN {
            9223372036854775808u64
        } else {
            (-n) as u64
        };
        push_digits(s, m);
        assert(old(s)@ + decimal(n as int) == old(s)@.push('-') + digits(m as nat));
    } else {
        push_digits(s, n as u64);
    }
}

/// Decimal notation of `n`, as `n.to_string()` writes it.
pub fn decimal_string(n: i64) -> (s: String)
    ensures
        s@ == decimal(n as int),
{
    let mut s = String::new();
    push_decimal(&mut s, n);
    s
}

// ---------------------------------------------------------------------
// Padding, as the `{:<w}` and `{:>w}` format specifications do it
// ---------------------------------------------------------------------

/// `k` spaces.
pub open spec fn spaces(k: int) -> Seq<char> {
    Seq::new(if k < 0 { 0 } else { k as nat }, |i: int| ' ')
}

/// `s` followed by spaces up to `width` characters (`{:<width}`).
pub open spec fn pad_right(s: Seq<char>, width: int) -> Seq<char> {
    s + spaces(width - s.len())
}

/// Spaces followed by `s` up to `width` characters (`{:>width}`).
pub open spec fn pad_left(s: Seq<char>, width: int) -> Seq<char> {
    spaces(width - s.len()) + s
}

/// Appends `k` spaces.
pub fn push_spaces(s: &mut String, k: usize)
    ensures
        final(s)@ == old(s)@ + spaces(k as int),
{
    let mut i: usize = 0;
    while i < k
        invariant
            i <= k,
            s@ == old(s)@ + spaces(i as int),
        decreases k - i,
    {
        push_char(s, ' ');
        assert(spaces(i + 1) == spaces(i as int).push(' '));
        i = i + 1;
    }
}

/// Appends `t` padded with spaces on the right to `width` characters.
pub fn push_padded_right(s: &mut String, t: &Vec<char>, width: usize)
    ensures
        final(s)@ == old(s)@ + pad_right(t@, width as int),
{
    push_chars(s, t);
    let k: usize = if t.len() < width { width - t.len() } else { 0 };
    push_spaces(s, k);
    assert(spaces(k as int) == spaces(width - t@.len()));
}

/// Appends `t` padded with spaces on the left to `width` characters.
pub fn push_padded_left(s: &mut String, t: &Vec<char>, width: usize)
    ensures
        final(s)@ == old(s)@ + pad_left(t@, width as int),
{
    let k: usize = if t.len() < width { width - t.len() } else { 0 };
    push_spaces(s, k);
    assert(spaces(k as int) == spaces(width - t@.len()));
    push_chars(s, t);
}

// ---------------------------------------------------------------------
// Quoting for JSON string literals
// ---------------------------------------------------------------------

/// A hexadecimal digit, lower case.
pub open spec fn hex_digit(d: int) -> char {
    seq!['0', '1', '2', '3', '4', '5', '6', '7', '8', '9', 'a', 'b', 'c', 'd', 'e', 'f'][d]
}

/// How one character is written inside a JSON string literal: a backslash
/// becomes `\\`, a double quote `\"`, a newline, carriage return or tab
/// `\n`, `\r` or `\t`, any other character below U+0020 `\u00` and its two
/// hexadecimal digits; anything else stays.
pub open spec fn escape_char(c: char) -> Seq<char> {
    if c == '\\' {
        seq!['\\', '\\']
    } else if c == '"' {
        seq!['\\', '"']
    } else if c == '\n' {
        seq!['\\', 'n']
    } else if c == '\r' {
        seq!['\\', 'r']
    } else if c == '\t' {
        seq!['\\', 't']
    } else if (c as u32) < 0x20 {
        seq!['\\', 'u', '0', '0', hex_digit((c as u32 / 16) as int), hex_digit((c as u32 % 16) as int)]
    } else {
        seq![c]
    }
}

/// The escaped form of a whole string.
pub open spec fn json_escape(s: Seq<char>) -> Seq<char>
    decreases s.len(),
{
    if s.len() == 0 {
        Seq::empty()
    } else {
        json_escape(s.drop_last()) + escape_char(s.last())
    }
}

fn hex_of(d: u32) -> (c: char)
    requires
        d < 16,
    ensures
        c == hex_digit(d as int),
{
    match d {
        0 => '0',
        1 => '1',
        2 => '2',
        3 => '3',
        4 => '4',
        5 => '5',
        6 => '6',
        7 => '7',
        8 => '8',
        9 => '9',
        10 => 'a',
        11 => 'b',
        12 => 'c',
        13 => 'd',
        14 => 'e',
        _ => 'f',
    }
}

/// Appends the escaped form of `c`.
fn push_escaped_char(s: &mut String, c: char)
    ensures
        final(s)@ == old(s)@ + escape_char(c),
{
    if c == '\\' {
        push_char(s, '\\');
        push_char(s, '\\');
    } else if c == '"' {
        push_char(s, '\\');
        push_char(s, '"');
    } else if c == '\n' {
        push_char(s, '\\');
        push_char(s, 'n');
    } else if c == '\r' {
        push_char(s, '\\');
        push_char(s, 'r');
    } else if c == '\t' {
        push_char(s, '\\');
        push_char(s, 't');
    } else {
        let v: u32 = c as u32;
        if v < 0x20 {
            push_char(s, '\\');
            push_char(s, 'u');
            push_char(s, '0');
            push_char(s, '0');
            push_char(s, hex_of(v / 16));
            push_char(s, hex_of(v % 16));
        } else {
            push_char(s, c);
        }
    }
    assert(final(s)@ =~= old(s)@ + escape_char(c));
}

/// Appends the escaped form of `t`.
pub fn push_escaped(s: &mut String, t: &Vec<char>)
    ensures
        final(s)@ == old(s)@ + json_escape(t@),
{
    let mut i: usize = 0;
    while i < t.len()
        invariant
            i <= t.len(),
            s@ == old(s)@ + json_escape(t@.take(i as int)),
        decreases t.len() - i,
    {
        let c = t[i];
        let ghost before = s@;
        push_escaped_char(s, c);
        assert(t@.take(i + 1).drop_last() == t@.take(i as int));
        assert(t@.take(i + 1).last() == c);
        i = i + 1;
    }
    assert(t@.take(t.len() as int) == t@);
}

/// The escaped form of any text holds no character below U+0020: every
/// control character is written as an escape, as JSON string literals need.
pub proof fn lemma_escape_has_no_control(s: Seq<char>)
    ensures
        forall|i: int| 0 <= i < json_escape(s).len() ==> (#[trigger] json_escape(s)[i] as u32) >= 0x20,
    decreases s.len(),
{
    if s.len() > 0 {
        lemma_escape_has_no_control(s.drop_last());
        let a = json_escape(s.drop_last());
        let c = s.last();
        let e = escape_char(c);
        if !(c == '\\' || c == '"' || c == '\n' || c == '\r' || c == '\t') && (c as u32) < 0x20 {
            let hi = (c as u32 / 16) as int;
            let lo = (c as u32 % 16) as int;
            assert(0 <= hi < 16);
            assert(0 <= lo < 16);
            assert(e == seq!['\\', 'u', '0', '0', hex_digit(hi), hex_digit(lo)]);
            assert(hex_digit(hi) as u32 >= 48);
            assert(hex_digit(lo) as u32 >= 48);
        }
        assert forall|i: int| 0 <= i < e.len() implies (#[trigger] e[i] as u32) >= 0x20 by {}
        assert forall|i: int| 0 <= i < (a + e).len() implies (#[trigger] (a + e)[i] as u32) >= 0x20 by {
            if i < a.len() {
                assert((a + e)[i] == a[i]);
            } else {
                assert((a + e)[i] == e[i - a.len()]);
            }
        }
    }
}

} // verus!
