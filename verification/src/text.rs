//! Numbers and addresses as text: how the nodes write them, and how the host
//! reads them back.
use vstd::prelude::*;
use vstd::arithmetic::power::pow;

verus! {

/// Appends one character, as `String::push` documents it.
pub assume_specification[ String::push ](s: &mut String, c: char)
    ensures
        final(s)@ == old(s)@.push(c),
;

/// Strings as character sequences.
pub open spec fn texts(s: Seq<String>) -> Seq<Seq<char>> {
    s.map_values(|t: String| t@)
}

/// The bytes of a text of ASCII characters.
pub open spec fn ascii_bytes(s: Seq<char>) -> Seq<u8> {
    s.map_values(|c: char| c as u8)
}

/// The lower-case digit with the value `d`, for `d` below sixteen.
pub open spec fn digit_char(d: nat) -> char {
    if d < 10 {
        (48 + d) as char
    } else {
        (87 + d) as char
    }
}

/// The upper-case digit with the value `d`, for `d` below sixteen.
pub open spec fn upper_digit_char(d: nat) -> char {
    if d < 10 {
        (48 + d) as char
    } else {
        (55 + d) as char
    }
}

/// `n` in decimal, without leading zeros.
pub open spec fn dec(n: nat) -> Seq<char>
    decreases n,
{
    if n < 10 {
        seq![digit_char(n)]
    } else {
        dec(n / 10).push(digit_char(n % 10))
    }
}

/// `n` in decimal, with a minus sign where it is negative.
pub open spec fn signed_dec(n: int) -> Seq<char> {
    if n < 0 {
        seq!['-'] + dec((-n) as nat)
    } else {
        dec(n as nat)
    }
}

/// `n` in lower-case hexadecimal, without leading zeros.
pub open spec fn hex(n: nat) -> Seq<char>
    decreases n,
{
    if n < 16 {
        seq![digit_char(n)]
    } else {
        hex(n / 16).push(digit_char(n % 16))
    }
}

/// `s` set right in `width` columns, filled up with spaces.
pub open spec fn pad_left(s: Seq<char>, width: nat) -> Seq<char> {
    if s.len() >= width {
        s
    } else {
        Seq::new((width - s.len()) as nat, |i: int| ' ') + s
    }
}

/// The two upper-case hexadecimal digits of a byte.
pub open spec fn hex_pair(b: u8) -> Seq<char> {
    seq![upper_digit_char((b / 16) as nat), upper_digit_char((b % 16) as nat)]
}

/// The two lower-case hexadecimal digits of a byte.
pub open spec fn lower_hex_pair(b: u8) -> Seq<char> {
    seq![digit_char((b / 16) as nat), digit_char((b % 16) as nat)]
}

/// The six bytes of a hardware address, upper case, with colons between them.
pub open spec fn mac_text(m: Seq<u8>) -> Seq<char> {
    hex_pair(m[0]) + seq![':'] + hex_pair(m[1]) + seq![':'] + hex_pair(m[2]) + seq![':'] + hex_pair(
        m[3],
    ) + seq![':'] + hex_pair(m[4]) + seq![':'] + hex_pair(m[5])
}

/// The six bytes of a hardware address, lower case, with colons between them.
pub open spec fn lower_mac_text(m: Seq<u8>) -> Seq<char> {
    lower_hex_pair(m[0]) + seq![':'] + lower_hex_pair(m[1]) + seq![':'] + lower_hex_pair(m[2])
        + seq![':'] + lower_hex_pair(m[3]) + seq![':'] + lower_hex_pair(m[4]) + seq![':']
        + lower_hex_pair(m[5])
}

/// A number below ten to the power `k` has at most `k` digits.
proof fn lemma_dec_len(n: nat, k: nat)
    requires
        k >= 1,
        n < pow(10, k),
    ensures
        dec(n).len() <= k,
    decreases k,
{
    reveal(pow);
    if n >= 10 {
        assert(pow(10, k) == 10 * pow(10, (k - 1) as nat));
        if k == 1 {
            assert(pow(10, 0) == 1);
        }
        lemma_dec_len(n / 10, (k - 1) as nat);
    }
}

/// A number below sixteen to the power `k` has at most `k` hexadecimal digits.
proof fn lemma_hex_len(n: nat, k: nat)
    requires
        k >= 1,
        n < pow(16, k),
    ensures
        hex(n).len() <= k,
    decreases k,
{
    reveal(pow);
    if n >= 16 {
        assert(pow(16, k) == 16 * pow(16, (k - 1) as nat));
        if k == 1 {
            assert(pow(16, 0) == 1);
        }
        lemma_hex_len(n / 16, (k - 1) as nat);
    }
}

/// How long the text of a 64-bit number can be.
pub proof fn lemma_number_len(n: nat)
    requires
        n <= u64::MAX,
    ensures
        dec(n).len() <= 20,
        hex(n).len() <= 16,
{
    reveal(pow);
    reveal_with_fuel(pow, 21);
    assert(pow(10, 20) == 100_000_000_000_000_000_000);
    assert(pow(16, 16) == 0x1_0000_0000_0000_0000);
    lemma_dec_len(n, 20);
    lemma_hex_len(n, 16);
}

/// The lower-case digit with the value `d`.
fn digit(d: u8) -> (c: char)
    requires
        d < 16,
    ensures
        c == digit_char(d as nat),
{
    if d < 10 {
        (48 + d) as char
    } else {
        (87 + d) as char
    }
}

/// The upper-case digit with the value `d`.
fn upper_digit(d: u8) -> (c: char)
    requires
        d < 16,
    ensures
        c == upper_digit_char(d as nat),
{
    if d < 10 {
        (48 + d) as char
    } else {
        (55 + d) as char
    }
}

/// Appends `n` in decimal.
pub fn push_dec(out: &mut String, n: u64)
    ensures
        final(out)@ == old(out)@ + dec(n as nat),
    decreases n,
{
    if n < 10 {
        out.push(digit(n as u8));
    } else {
        push_dec(out, n / 10);
        out.push(digit((n % 10) as u8));
    }
}

/// Appends `n` in decimal, with its sign where it is negative.
pub fn push_signed(out: &mut String, n: i64)
    ensures
        final(out)@ == old(out)@ + signed_dec(n as int),
{
    if n < 0 {
        out.push('-');
        let magnitude: u64 = (-(n + 1)) as u64 + 1;
        push_dec(out, magnitude);
    } else {
        push_dec(out, n as u64);
    }
}

/// Appends `n` in lower-case hexadecimal.
pub fn push_hex(out: &mut String, n: u64)
    ensures
        final(out)@ == old(out)@ + hex(n as nat),
    decreases n,
{
    if n < 16 {
        out.push(digit(n as u8));
    } else {
        push_hex(out, n / 16);
        out.push(digit((n % 16) as u8));
    }
}

/// Appends the two upper-case hexadecimal digits of `b`.
pub fn push_hex_pair(out: &mut String, b: u8)
    ensures
        final(out)@ == old(out)@ + hex_pair(b),
{
    out.push(upper_digit(b / 16));
    out.push(upper_digit(b % 16));
}

/// Appends the two lower-case hexadecimal digits of `b`.
pub fn push_lower_hex_pair(out: &mut String, b: u8)
    ensures
        final(out)@ == old(out)@ + lower_hex_pair(b),
{
    out.push(digit(b / 16));
    out.push(digit(b % 16));
}

/// Appends a hardware address in upper case.
pub fn push_mac(out: &mut String, m: &[u8; 6])
    ensures
        final(out)@ == old(out)@ + mac_text(m@),
{
    push_hex_pair(out, m[0]);
    out.push(':');
    push_hex_pair(out, m[1]);
    out.push(':');
    push_hex_pair(out, m[2]);
    out.push(':');
    push_hex_pair(out, m[3]);
    out.push(':');
    push_hex_pair(out, m[4]);
    out.push(':');
    push_hex_pair(out, m[5]);
    assert(out@ =~= old(out)@ + mac_text(m@));
}

/// Appends a hardware address in lower case.
pub fn push_lower_mac(out: &mut String, m: &[u8; 6])
    ensures
        final(out)@ == old(out)@ + lower_mac_text(m@),
{
    push_lower_hex_pair(out, m[0]);
    out.push(':');
    push_lower_hex_pair(out, m[1]);
    out.push(':');
    push_lower_hex_pair(out, m[2]);
    out.push(':');
    push_lower_hex_pair(out, m[3]);
    out.push(':');
    push_lower_hex_pair(out, m[4]);
    out.push(':');
    push_lower_hex_pair(out, m[5]);
    assert(out@ =~= old(out)@ + lower_mac_text(m@));
}

/// A number is written digit by digit: one more digit behind it makes it ten times as
/// large, and adds the digit.
pub proof fn lemma_dec_grows(n: nat, d: nat)
    requires
        d < 10,
    ensures
        dec(d) == seq![(48 + d) as char],
        n > 0 ==> dec(10 * n + d) == dec(n).push((48 + d) as char),
{
    if n > 0 {
        assert((10 * n + d) / 10 == n);
        assert((10 * n + d) % 10 == d);
    }
}

/// A hexadecimal number is written digit by digit, with lower-case letters for the digits
/// from ten on.
pub proof fn lemma_hex_grows(n: nat, d: nat)
    requires
        d < 16,
    ensures
        d < 10 ==> hex(d) == seq![(48 + d) as char],
        d >= 10 ==> hex(d) == seq![(87 + d) as char],
        n > 0 ==> hex(16 * n + d) == hex(n) + hex(d),
{
    if n > 0 {
        assert((16 * n + d) / 16 == n);
        assert((16 * n + d) % 16 == d);
        assert(hex(16 * n + d) =~= hex(n) + hex(d));
    }
}

/// A negative number is written as its opposite with a minus sign before it.
pub proof fn lemma_signed_dec(n: nat)
    ensures
        signed_dec(n as int) == dec(n),
        n > 0 ==> signed_dec(-(n as int)) == seq!['-'] + dec(n),
{
}

/// A text that is set right ends with itself, and only spaces stand before it, as many as
/// are needed.
pub proof fn lemma_pad_left(s: Seq<char>, width: nat)
    ensures
        pad_left(s, width).len() == (if s.len() < width {
            width
        } else {
            s.len()
        }),
        pad_left(s, width).skip(pad_left(s, width).len() - s.len()) == s,
        forall|i: int|
            0 <= i < pad_left(s, width).len() - s.len() ==> #[trigger] pad_left(s, width)[i] == ' ',
{
    assert(pad_left(s, width).skip(pad_left(s, width).len() - s.len()) =~= s);
}

/// The value of an upper-case hexadecimal digit.
pub open spec fn upper_value(c: char) -> int {
    if 'A' <= c <= 'F' {
        c as int - 55
    } else {
        c as int - 48
    }
}

/// The value of a lower-case hexadecimal digit.
pub open spec fn lower_value(c: char) -> int {
    if 'a' <= c <= 'f' {
        c as int - 87
    } else {
        c as int - 48
    }
}

/// Each byte of a hardware address is written with two hexadecimal digits, the bytes in
/// their order with a colon between each two, in upper or in lower case.
pub proof fn lemma_mac_text(m: Seq<u8>, i: int)
    requires
        m.len() == 6,
        0 <= i < 6,
    ensures
        mac_text(m).len() == 17,
        16 * upper_value(mac_text(m)[3 * i]) + upper_value(mac_text(m)[3 * i + 1]) == m[i],
        '0' <= mac_text(m)[3 * i] <= '9' || 'A' <= mac_text(m)[3 * i] <= 'F',
        '0' <= mac_text(m)[3 * i + 1] <= '9' || 'A' <= mac_text(m)[3 * i + 1] <= 'F',
        i < 5 ==> mac_text(m)[3 * i + 2] == ':',
        lower_mac_text(m).len() == 17,
        16 * lower_value(lower_mac_text(m)[3 * i]) + lower_value(lower_mac_text(m)[3 * i + 1])
            == m[i],
        '0' <= lower_mac_text(m)[3 * i] <= '9' || 'a' <= lower_mac_text(m)[3 * i] <= 'f',
        '0' <= lower_mac_text(m)[3 * i + 1] <= '9' || 'a' <= lower_mac_text(m)[3 * i + 1] <= 'f',
        i < 5 ==> lower_mac_text(m)[3 * i + 2] == ':',
{
    let b = m[i];
    assert(16 * (b / 16) + b % 16 == b);
    assert(mac_text(m)[3 * i] == upper_digit_char((b / 16) as nat));
    assert(mac_text(m)[3 * i + 1] == upper_digit_char((b % 16) as nat));
    assert(lower_mac_text(m)[3 * i] == digit_char((b / 16) as nat));
    assert(lower_mac_text(m)[3 * i + 1] == digit_char((b % 16) as nat));
}

} // verus!
