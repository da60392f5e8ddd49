//! Text helpers: whitespace, decimal and hexadecimal rendering, and a few
//! string-building primitives the rest of the library composes messages from.

use vstd::prelude::*;
use vstd::string::*;

verus! {

/// Unicode `White_Space` code points, the set `char::is_whitespace` documents.
pub open spec fn is_white(c: char) -> bool {
    let n = c as u32;
    ||| 0x09 <= n <= 0x0d
    ||| n == 0x20
    ||| n == 0x85
    ||| n == 0xa0
    ||| n == 0x1680
    ||| 0x2000 <= n <= 0x200a
    ||| n == 0x2028
    ||| n == 0x2029
    ||| n == 0x202f
    ||| n == 0x205f
    ||| n == 0x3000
}

/// A text is blank when it is empty or made of whitespace only.
pub open spec fn is_blank(s: Seq<char>) -> bool {
    forall|i: int| 0 <= i < s.len() ==> is_white(#[trigger] s[i])
}

pub fn is_white_char(c: char) -> (r: bool)
    ensures
        r == is_white(c),
{
    let n = c as u32;
    (0x09 <= n && n <= 0x0d) || n == 0x20 || n == 0x85 || n == 0xa0 || n == 0x1680 || (0x2000
        <= n && n <= 0x200a) || n == 0x2028 || n == 0x2029 || n == 0x202f || n == 0x205f || n
        == 0x3000
}

/// Whether `s` is empty or whitespace-only (what `s.trim().is_empty()` tests).
pub fn is_blank_text(s: &str) -> (r: bool)
    ensures
        r == is_blank(s@),
{
    let n = s.unicode_len();
    let mut i: usize = 0;
    while i < n
        invariant
            n == s@.len(),
            i <= n,
            forall|j: int| 0 <= j < i ==> is_white(#[trigger] s@[j]),
        decreases n - i,
    {
        let c = s.get_char(i);
        if !is_white_char(c) {
            assert(!is_white(s@[i as int]));
            return false;
        }
        i = i + 1;
    }
    true
}

/// Calls `String::push`. The contract claims what std documents: the
/// string's characters afterwards are those before, then `c`.
#[verifier::external_body]
pub(crate) fn push_char(s: &mut String, c: char)
    ensures
        final(s)@ == old(s)@.push(c),
{
    s.push(c);
}

/// Calls `String::pop`. The contract claims what std documents: an empty
/// string is left as it is and `None` comes back; otherwise the last
/// character is removed and returned.
#[verifier::external_body]
pub(crate) fn pop_char(s: &mut String) -> (r: Option<char>)
    ensures
        old(s)@.len() == 0 ==> r is None && final(s)@ == old(s)@,
        old(s)@.len() > 0 ==> r == Some(old(s)@.last()) && final(s)@ == old(s)@.drop_last(),
{
    s.pop()
}

/// Builds a `String` holding exactly the characters of `v`.
pub fn string_of_chars(v: &Vec<char>) -> (s: String)
    ensures
        s@ == v@,
{
    let mut s = String::new();
    let mut i: usize = 0;
    while i < v.len()
        invariant
            i <= v.len(),
            s@ == v@.subrange(0, i as int),
        decreases v.len() - i,
    {
        push_char(&mut s, v[i]);
        assert(v@.subrange(0, i + 1) == v@.subrange(0, i as int).push(v@[i as int]));
        i = i + 1;
    }
    assert(v@.subrange(0, v.len() as int) == v@);
    s
}

/// Appends `t` to `s`.
pub fn append_text(s: &mut String, t: &str)
    ensures
        final(s)@ == old(s)@ + t@,
{
    s.append(t);
}

/// A fresh `String` with the characters of `t`.
pub fn owned(t: &str) -> (s: String)
    ensures
        s@ == t@,
{
    String::from_str(t)
}

/// Whether two texts hold the same characters.
pub fn same_text(a: &str, b: &str) -> (r: bool)
    ensures
        r == (a@ == b@),
{
    let n = a.unicode_len();
    let m = b.unicode_len();
    if n != m {
        return false;
    }
    let mut i: usize = 0;
    while i < n
        invariant
            n == a@.len(),
            m == b@.len(),
            n == m,
            i <= n,
            forall|j: int| 0 <= j < i ==> a@[j] == b@[j],
        decreases n - i,
    {
        if a.get_char(i) != b.get_char(i) {
            return false;
        }
        i = i + 1;
    }
    assert(a@ =~= b@);
    true
}

/// The digit character for `d` in `0..16` (lower-case hex).
pub open spec fn hex_char(d: int) -> char {
    if d < 10 {
        (('0' as int) + d) as char
    } else {
        (('a' as int) + d - 10) as char
    }
}

/// The last `n` hexadecimal digits of `v`, most significant first.
pub open spec fn hex_digits(v: nat, n: nat) -> Seq<char>
    decreases n,
{
    if n == 0 {
        seq![]
    } else {
        hex_digits(v / 16, (n - 1) as nat).push(hex_char((v % 16) as int))
    }
}

/// The hyphenated lower-case rendering of a 128-bit UUID value:
/// 8-4-4-4-12 hex digits.
pub open spec fn hyphenated(v: u128) -> Seq<char> {
    let h = hex_digits(v as nat, 32);
    h.subrange(0, 8) + seq!['-'] + h.subrange(8, 12) + seq!['-'] + h.subrange(12, 16) + seq!['-']
        + h.subrange(16, 20) + seq!['-'] + h.subrange(20, 32)
}

fn hex_char_exec(d: u128) -> (c: char)
    requires
        d < 16,
    ensures
        c == hex_char(d as int),
{
    let table: [char; 16] = [
        '0',
        '1',
        '2',
        '3',
        '4',
        '5',
        '6',
        '7',
        '8',
        '9',
        'a',
        'b',
        'c',
        'd',
        'e',
        'f',
    ];
    let c = table[d as usize];
    assert(c == hex_char(d as int)) by {
        assert(table@[0] == '0' && table@[1] == '1' && table@[2] == '2' && table@[3] == '3');
        assert(table@[4] == '4' && table@[5] == '5' && table@[6] == '6' && table@[7] == '7');
        assert(table@[8] == '8' && table@[9] == '9' && table@[10] == 'a' && table@[11] == 'b');
        assert(table@[12] == 'c' && table@[13] == 'd' && table@[14] == 'e' && table@[15] == 'f');
    }
    c
}

fn push_range(out: &mut Vec<char>, h: &Vec<char>, from: usize, to: usize)
    requires
        from <= to <= h.len(),
    ensures
        final(out)@ == old(out)@ + h@.subrange(from as int, to as int),
{
    let mut i = from;
    while i < to
        invariant
            from <= i <= to,
            to <= h.len(),
            out@ == old(out)@ + h@.subrange(from as int, i as int),
        decreases to - i,
    {
        out.push(h[i]);
        assert(h@.subrange(from as int, i + 1) == h@.subrange(from as int, i as int).push(
            h@[i as int],
        ));
        i = i + 1;
    }
}

/// Renders a UUID value in its hyphenated lower-case form.
pub fn uuid_text(v: u128) -> (s: String)
    ensures
        s@ == hyphenated(v),
{
    let mut digits: Vec<char> = Vec::new();
    let mut cur = v;
    let mut k: usize = 0;
    while k < 32
        invariant
            k <= 32,
            digits@.len() == k,
            hex_digits(v as nat, 32) == hex_digits(cur as nat, (32 - k) as nat) + digits@,
        decreases 32 - k,
    {
        let d = cur % 16;
        let c = hex_char_exec(d);
        let ghost before = digits@;
        digits.insert(0, c);
        let ghost m = (32 - k) as nat;
        assert(hex_digits(cur as nat, m) == hex_digits((cur / 16) as nat, (m - 1) as nat).push(c));
        assert(hex_digits((cur / 16) as nat, (m - 1) as nat).push(c) + before
            == hex_digits((cur / 16) as nat, (m - 1) as nat) + digits@);
        cur = cur / 16;
        k = k + 1;
    }
    assert(hex_digits(cur as nat, 0) == Seq::<char>::empty());
    assert(digits@ == hex_digits(v as nat, 32));
    let mut out: Vec<char> = Vec::new();
    push_range(&mut out, &digits, 0, 8);
    out.push('-');
    push_range(&mut out, &digits, 8, 12);
    out.push('-');
    push_range(&mut out, &digits, 12, 16);
    out.push('-');
    push_range(&mut out, &digits, 16, 20);
    out.push('-');
    push_range(&mut out, &digits, 20, 32);
    assert(out@ =~= hyphenated(v));
    string_of_chars(&out)
}

/// Decimal digits of `n`, most significant first, no leading zeros.
pub open spec fn decimal_digits(n: nat) -> Seq<char>
    decreases n,
{
    if n < 10 {
        seq![(('0' as int) + n) as char]
    } else {
        decimal_digits(n / 10).push((('0' as int) + n % 10) as char)
    }
}

/// Decimal rendering of an integer, with a leading `-` when negative
/// (what `Display` prints for Rust's integer types).
pub open spec fn decimal(n: int) -> Seq<char> {
    if n < 0 {
        seq!['-'] + decimal_digits((-n) as nat)
    } else {
        decimal_digits(n as nat)
    }
}

fn digits_of(m0: u128) -> (v: Vec<char>)
    ensures
        v@ == decimal_digits(m0 as nat),
{
    let mut digits: Vec<char> = Vec::new();
    if m0 == 0 {
        digits.push('0');
        assert(decimal_digits(0) == seq!['0']);
        assert(digits@ =~= seq!['0']);
        return digits;
    }
    let mut m = m0;
    while m > 0
        invariant
            m > 0 ==> decimal_digits(m0 as nat) == decimal_digits(m as nat) + digits@,
            m == 0 ==> decimal_digits(m0 as nat) == digits@,
        decreases m,
    {
        let d = m % 10;
        let c = ((('0' as u32) + (d as u32)) as u8) as char;
        assert(c == (('0' as int) + (m as nat) % 10) as char);
        let ghost before = digits@;
        digits.insert(0, c);
        if m < 10 {
            assert(decimal_digits(m as nat) == seq![c]);
            assert(seq![c] + before =~= digits@);
        } else {
            assert(decimal_digits(m as nat) == decimal_digits((m / 10) as nat).push(c));
            assert(decimal_digits((m / 10) as nat).push(c) + before == decimal_digits(
                (m / 10) as nat,
            ) + digits@);
        }
        m = m / 10;
    }
    digits
}

/// Renders an integer in decimal.
pub fn decimal_text(n: i64) -> (s: String)
    ensures
        s@ == decimal(n as int),
{
    if n < 0 {
        let mag: u128 = (0i128 - (n as i128)) as u128;
        let d = digits_of(mag);
        let mut out: Vec<char> = Vec::new();
        out.push('-');
        let mut i: usize = 0;
        while i < d.len()
            invariant
                i <= d.len(),
                out@ == seq!['-'] + d@.subrange(0, i as int),
            decreases d.len() - i,
        {
            out.push(d[i]);
            assert(d@.subrange(0, i + 1) == d@.subrange(0, i as int).push(d@[i as int]));
            i = i + 1;
        }
        assert(d@.subrange(0, d.len() as int) == d@);
        string_of_chars(&out)
    } else {
        let d = digits_of(n as u128);
        string_of_chars(&d)
    }
}

/// Renders a count in decimal.
pub fn count_text(n: usize) -> (s: String)
    ensures
        s@ == decimal(n as int),
{
    let d = digits_of(n as u128);
    string_of_chars(&d)
}

} // verus!
