//! Numbers in text: integers, which are read, and numbers with a point and an
//! exponent, of which it is told whether they are numbers.
use vstd::prelude::*;
use crate::frame::{is_field_char, is_field_text, lemma_ascii_utf8};
use crate::text::{ascii_bytes, dec, hex, signed_dec};
use crate::utf8::is_white_space;

verus! {

/// Why a text is no integer of the wanted range.
#[derive(Clone, Copy, Debug, PartialEq, Eq, Structural)]
pub enum IntFault {
    Empty,
    InvalidDigit,
    PosOverflow,
    NegOverflow,
}

/// What is said of a fault.
pub open spec fn fault_text(f: IntFault) -> Seq<char> {
    match f {
        IntFault::Empty => "cannot parse integer from empty string"@,
        IntFault::InvalidDigit => "invalid digit found in string"@,
        IntFault::PosOverflow => "number too large to fit in target type"@,
        IntFault::NegOverflow => "number too small to fit in target type"@,
    }
}

/// The value of a byte as a digit to the given radix, ten or sixteen.
pub open spec fn digit_value(b: u8, radix: nat) -> Option<nat> {
    if 48 <= b <= 57 {
        Some((b - 48) as nat)
    } else if radix == 16 && 97 <= b <= 102 {
        Some((b - 87) as nat)
    } else if radix == 16 && 65 <= b <= 70 {
        Some((b - 55) as nat)
    } else {
        None
    }
}

/// How many digits `s` starts with.
pub open spec fn digit_run(s: Seq<u8>, radix: nat) -> nat
    decreases s.len(),
{
    if s.len() == 0 || digit_value(s[0], radix) is None {
        0
    } else {
        1 + digit_run(s.skip(1), radix)
    }
}

/// The number that a run of digits stands for.
pub open spec fn digits_value(s: Seq<u8>, radix: nat) -> nat
    decreases s.len(),
{
    if s.len() == 0 {
        0
    } else {
        digits_value(s.drop_last(), radix) * radix + digit_value(s.last(), radix).unwrap()
    }
}

/// `s` as digits alone: its value if that is at most `limit`. A value over the
/// limit counts for more than what may follow the digits.
pub open spec fn digits_within(s: Seq<u8>, radix: nat, limit: nat, over: IntFault) -> Result<
    nat,
    IntFault,
> {
    let run = digit_run(s, radix);
    let v = digits_value(s.take(run as int), radix);
    if v > limit {
        Err(over)
    } else if run < s.len() {
        Err(IntFault::InvalidDigit)
    } else {
        Ok(v)
    }
}

/// `s` as an unsigned integer of at most `max`; a plus sign may stand before
/// the digits.
pub open spec fn unsigned_value(s: Seq<u8>, radix: nat, max: nat) -> Result<nat, IntFault> {
    if s.len() == 0 {
        Err(IntFault::Empty)
    } else if s.len() > 1 && s[0] == 43 {
        digits_within(s.skip(1), radix, max, IntFault::PosOverflow)
    } else {
        digits_within(s, radix, max, IntFault::PosOverflow)
    }
}

/// `s` as a signed decimal integer of 32 bits; a sign may stand before the
/// digits.
pub open spec fn signed_value(s: Seq<u8>) -> Result<int, IntFault> {
    if s.len() > 1 && s[0] == 45 {
        match digits_within(s.skip(1), 10, 0x8000_0000, IntFault::NegOverflow) {
            Ok(v) => Ok(-(v as int)),
            Err(f) => Err(f),
        }
    } else {
        match unsigned_value(s, 10, 0x7fff_ffff) {
            Ok(v) => Ok(v as int),
            Err(f) => Err(f),
        }
    }
}

/// A run is no longer than what it starts.
proof fn lemma_run_bound(s: Seq<u8>, radix: nat)
    ensures
        digit_run(s, radix) <= s.len(),
    decreases s.len(),
{
    if s.len() > 0 && digit_value(s[0], radix) is Some {
        lemma_run_bound(s.skip(1), radix);
    }
}

/// A run that starts with `i` digits and then a byte that is none is `i` long.
pub proof fn lemma_run_exact(s: Seq<u8>, radix: nat, i: int)
    requires
        0 <= i <= s.len(),
        forall|k: int| 0 <= k < i ==> digit_value(#[trigger] s[k], radix) is Some,
        i < s.len() ==> digit_value(s[i], radix) is None,
    ensures
        digit_run(s, radix) == i,
    decreases i,
{
    if i > 0 {
        assert forall|k: int| 0 <= k < i - 1 implies digit_value(
            #[trigger] s.skip(1)[k],
            radix,
        ) is Some by {
            assert(s.skip(1)[k] == s[k + 1]);
        }
        lemma_run_exact(s.skip(1), radix, i - 1);
    }
}

/// More digits never make a smaller number.
proof fn lemma_value_grows(s: Seq<u8>, radix: nat, i: int, j: int)
    requires
        radix >= 1,
        0 <= i <= j <= s.len(),
    ensures
        digits_value(s.take(i), radix) <= digits_value(s.take(j), radix),
    decreases j - i,
{
    if i < j {
        lemma_value_grows(s, radix, i, j - 1);
        assert(s.take(j).drop_last() =~= s.take(j - 1));
        let v = digits_value(s.take(j - 1), radix);
        assert(v * radix >= v) by (nonlinear_arith)
            requires
                radix >= 1,
        ;
    }
}

/// A run that starts with `i` digits is at least `i` long.
proof fn lemma_run_at_least(s: Seq<u8>, radix: nat, i: int)
    requires
        0 <= i <= s.len(),
        forall|k: int| 0 <= k < i ==> digit_value(#[trigger] s[k], radix) is Some,
    ensures
        i <= digit_run(s, radix) <= s.len(),
    decreases i,
{
    lemma_run_bound(s, radix);
    if i > 0 {
        assert forall|k: int| 0 <= k < i - 1 implies digit_value(
            #[trigger] s.skip(1)[k],
            radix,
        ) is Some by {
            assert(s.skip(1)[k] == s[k + 1]);
        }
        lemma_run_at_least(s.skip(1), radix, i - 1);
    }
}

/// What is said of a fault.
pub fn int_fault_text(f: IntFault) -> (r: &'static str)
    ensures
        r@ == fault_text(f),
{
    match f {
        IntFault::Empty => "cannot parse integer from empty string",
        IntFault::InvalidDigit => "invalid digit found in string",
        IntFault::PosOverflow => "number too large to fit in target type",
        IntFault::NegOverflow => "number too small to fit in target type",
    }
}

/// The value of a byte as a digit.
fn to_digit(b: u8, radix: u64) -> (r: Option<u64>)
    ensures
        r is Some <==> digit_value(b, radix as nat) is Some,
        r matches Some(d) ==> d == digit_value(b, radix as nat).unwrap() && d < 16,
{
    if 48 <= b && b <= 57 {
        Some((b - 48) as u64)
    } else if radix == 16 && 97 <= b && b <= 102 {
        Some((b - 87) as u64)
    } else if radix == 16 && 65 <= b && b <= 70 {
        Some((b - 55) as u64)
    } else {
        None
    }
}

/// Reads the digits from `from` to the end of `s`.
fn parse_digits(s: &[u8], from: usize, radix: u64, limit: u64, over: IntFault) -> (r: Result<
    u64,
    IntFault,
>)
    requires
        from <= s@.len(),
        radix == 10 || radix == 16,
    ensures
        match r {
            Ok(v) => digits_within(s@.skip(from as int), radix as nat, limit as nat, over) == Ok::<
                nat,
                IntFault,
            >(v as nat),
            Err(f) => digits_within(s@.skip(from as int), radix as nat, limit as nat, over)
                == Err::<nat, IntFault>(f),
        },
{
    let ghost body = s@.skip(from as int);
    let mut i: usize = from;
    let mut acc: u64 = 0;
    assert(body.take(0) =~= Seq::<u8>::empty());
    while i < s.len()
        invariant
            from <= i <= s@.len(),
            body == s@.skip(from as int),
            radix == 10 || radix == 16,
            forall|k: int|
                0 <= k < i - from ==> digit_value(#[trigger] body[k], radix as nat) is Some,
            acc == digits_value(body.take(i - from), radix as nat),
            acc <= limit,
        decreases s@.len() - i,
    {
        assert(body[i - from] == s@[i as int]);
        match to_digit(s[i], radix) {
            None => {
                proof {
                    lemma_run_exact(body, radix as nat, i - from);
                }
                return Err(IntFault::InvalidDigit);
            },
            Some(d) => {
                proof {
                    let n = i - from + 1;
                    assert(body.take(n).drop_last() =~= body.take(n - 1));
                    lemma_run_at_least(body, radix as nat, n);
                    lemma_value_grows(body, radix as nat, n, digit_run(body, radix as nat) as int);
                }
                assert(acc * radix <= 0xffff_ffff_ffff_ffff * 16) by (nonlinear_arith)
                    requires
                        acc <= 0xffff_ffff_ffff_ffff,
                        radix <= 16,
                ;
                let next: u128 = (acc as u128) * (radix as u128) + (d as u128);
                if next > limit as u128 {
                    return Err(over);
                }
                acc = next as u64;
            },
        }
        i = i + 1;
    }
    proof {
        lemma_run_exact(body, radix as nat, body.len() as int);
        assert(body.take(body.len() as int) =~= body);
    }
    Ok(acc)
}

/// Reads an unsigned integer of at most `max`.
pub fn parse_unsigned(s: &[u8], radix: u64, max: u64) -> (r: Result<u64, IntFault>)
    requires
        radix == 10 || radix == 16,
    ensures
        match r {
            Ok(v) => unsigned_value(s@, radix as nat, max as nat) == Ok::<nat, IntFault>(v as nat),
            Err(f) => unsigned_value(s@, radix as nat, max as nat) == Err::<nat, IntFault>(f),
        },
{
    if s.len() == 0 {
        Err(IntFault::Empty)
    } else if s.len() > 1 && s[0] == 43 {
        parse_digits(s, 1, radix, max, IntFault::PosOverflow)
    } else {
        assert(s@.skip(0) =~= s@);
        parse_digits(s, 0, radix, max, IntFault::PosOverflow)
    }
}

/// Reads a signed decimal integer of 32 bits.
pub fn parse_i32(s: &[u8]) -> (r: Result<i32, IntFault>)
    ensures
        match r {
            Ok(v) => signed_value(s@) == Ok::<int, IntFault>(v as int),
            Err(f) => signed_value(s@) == Err::<int, IntFault>(f),
        },
{
    if s.len() > 1 && s[0] == 45 {
        match parse_digits(s, 1, 10, 0x8000_0000, IntFault::NegOverflow) {
            Ok(v) => Ok((-(v as i64)) as i32),
            Err(f) => Err(f),
        }
    } else {
        match parse_unsigned(s, 10, 0x7fff_ffff) {
            Ok(v) => Ok(v as i32),
            Err(f) => Err(f),
        }
    }
}

/// What `dec` writes is digits, and they stand for the number.
pub proof fn lemma_dec_digits(n: nat)
    ensures
        dec(n).len() > 0,
        forall|i: int| 0 <= i < dec(n).len() ==> '0' <= #[trigger] dec(n)[i] <= '9',
        digits_value(ascii_bytes(dec(n)), 10) == n,
    decreases n,
{
    reveal_with_fuel(digits_value, 2);
    let b = ascii_bytes(dec(n));
    if n < 10 {
        assert(b.drop_last() =~= Seq::<u8>::empty());
    } else {
        lemma_dec_digits(n / 10);
        assert(b.drop_last() =~= ascii_bytes(dec(n / 10)));
    }
}

/// What `hex` writes is digits, and they stand for the number.
proof fn lemma_hex_digits(n: nat)
    ensures
        hex(n).len() > 0,
        forall|i: int|
            0 <= i < hex(n).len() ==> ('0' <= #[trigger] hex(n)[i] <= '9' || 'a' <= hex(n)[i]
                <= 'f'),
        digits_value(ascii_bytes(hex(n)), 16) == n,
    decreases n,
{
    reveal_with_fuel(digits_value, 2);
    let b = ascii_bytes(hex(n));
    if n < 16 {
        assert(b.drop_last() =~= Seq::<u8>::empty());
    } else {
        lemma_hex_digits(n / 16);
        assert(b.drop_last() =~= ascii_bytes(hex(n / 16)));
    }
}

/// Digits alone, within the limit.
proof fn lemma_digits_within(s: Seq<u8>, radix: nat, limit: nat, over: IntFault)
    requires
        forall|k: int| 0 <= k < s.len() ==> digit_value(#[trigger] s[k], radix) is Some,
        digits_value(s, radix) <= limit,
    ensures
        digits_within(s, radix, limit, over) == Ok::<nat, IntFault>(digits_value(s, radix)),
{
    lemma_run_exact(s, radix, s.len() as int);
    assert(s.take(s.len() as int) =~= s);
}

/// Reading what was written in decimal gives the number back.
pub proof fn lemma_dec_round_trip(n: nat, max: nat)
    requires
        n <= max,
    ensures
        unsigned_value(ascii_bytes(dec(n)), 10, max) == Ok::<nat, IntFault>(n),
{
    lemma_dec_digits(n);
    let b = ascii_bytes(dec(n));
    assert forall|k: int| 0 <= k < b.len() implies digit_value(#[trigger] b[k], 10) is Some && b[k]
        != 43 by {
        assert('0' <= dec(n)[k] <= '9');
    }
    lemma_digits_within(b, 10, max, IntFault::PosOverflow);
}

/// Different numbers are written differently.
pub proof fn lemma_dec_injective(a: nat, b: nat)
    requires
        dec(a) == dec(b),
    ensures
        a == b,
{
    lemma_dec_digits(a);
    lemma_dec_digits(b);
}

/// Reading what was written in hexadecimal gives the number back.
pub proof fn lemma_hex_round_trip(n: nat, max: nat)
    requires
        n <= max,
    ensures
        unsigned_value(ascii_bytes(hex(n)), 16, max) == Ok::<nat, IntFault>(n),
{
    lemma_hex_digits(n);
    let b = ascii_bytes(hex(n));
    assert forall|k: int| 0 <= k < b.len() implies digit_value(#[trigger] b[k], 16) is Some && b[k]
        != 43 by {
        assert('0' <= hex(n)[k] <= '9' || 'a' <= hex(n)[k] <= 'f');
    }
    lemma_digits_within(b, 16, max, IntFault::PosOverflow);
}

/// Reading a signed number that was written in decimal gives it back.
pub proof fn lemma_signed_round_trip(n: int)
    requires
        i32::MIN <= n <= i32::MAX,
    ensures
        signed_value(ascii_bytes(signed_dec(n))) == Ok::<int, IntFault>(n),
{
    let b = ascii_bytes(signed_dec(n));
    if n < 0 {
        let d = ascii_bytes(dec((-n) as nat));
        lemma_dec_digits((-n) as nat);
        assert(b.skip(1) =~= d);
        assert forall|k: int| 0 <= k < d.len() implies digit_value(#[trigger] d[k], 10) is Some by {
            assert('0' <= dec((-n) as nat)[k] <= '9');
        }
        lemma_digits_within(d, 10, 0x8000_0000, IntFault::NegOverflow);
    } else {
        lemma_dec_digits(n as nat);
        lemma_dec_round_trip(n as nat, 0x7fff_ffff);
        assert('0' <= dec(n as nat)[0] <= '9');
    }
}

/// A written number can stand in a field, with no white space in it.
pub proof fn lemma_dec_field(n: nat)
    ensures
        dec(n).len() > 0,
        is_field_text(dec(n)),
        forall|i: int| 0 <= i < dec(n).len() ==> !is_white_space(#[trigger] dec(n)[i]),
{
    lemma_dec_digits(n);
    assert forall|i: int| 0 <= i < dec(n).len() implies is_field_char(#[trigger] dec(n)[i])
        && !is_white_space(dec(n)[i]) by {
        assert('0' <= dec(n)[i] <= '9');
    }
}

/// A signed number can stand in a field, with no white space in it.
pub proof fn lemma_signed_field(n: int)
    ensures
        signed_dec(n).len() > 0,
        is_field_text(signed_dec(n)),
        forall|i: int| 0 <= i < signed_dec(n).len() ==> !is_white_space(#[trigger] signed_dec(n)[i]),
{
    let d = dec(if n < 0 {
        (-n) as nat
    } else {
        n as nat
    });
    lemma_dec_field(if n < 0 {
        (-n) as nat
    } else {
        n as nat
    });
    assert forall|i: int| 0 <= i < signed_dec(n).len() implies is_field_char(
        #[trigger] signed_dec(n)[i],
    ) && !is_white_space(signed_dec(n)[i]) by {
        if n < 0 && i > 0 {
            assert(signed_dec(n)[i] == d[i - 1]);
        } else if n >= 0 {
            assert(signed_dec(n)[i] == d[i]);
        }
    }
}

/// A hexadecimal number can stand in a field, with no white space in it.
pub proof fn lemma_hex_field(n: nat)
    ensures
        hex(n).len() > 0,
        is_field_text(hex(n)),
        forall|i: int| 0 <= i < hex(n).len() ==> !is_white_space(#[trigger] hex(n)[i]),
{
    lemma_hex_digits(n);
    assert forall|i: int| 0 <= i < hex(n).len() implies is_field_char(#[trigger] hex(n)[i])
        && !is_white_space(hex(n)[i]) by {
        assert('0' <= hex(n)[i] <= '9' || 'a' <= hex(n)[i] <= 'f');
    }
}

/// Why a text is no number with a point and an exponent.
#[derive(Clone, Copy, Debug, PartialEq, Eq, Structural)]
pub enum FloatFault {
    Empty,
    Invalid,
}

/// What is said of a text that is no such number.
pub open spec fn float_fault_text(f: FloatFault) -> Seq<char> {
    match f {
        FloatFault::Empty => "cannot parse float from empty string"@,
        FloatFault::Invalid => "invalid float literal"@,
    }
}

/// A byte as a small letter, if it is a letter.
pub open spec fn lower(b: u8) -> u8 {
    if 65 <= b <= 90 {
        (b + 32) as u8
    } else {
        b
    }
}

/// `s` is the given word of small letters, in whatever letters it is written.
pub open spec fn is_word(s: Seq<u8>, word: Seq<char>) -> bool {
    s.len() == word.len() && forall|i: int|
        0 <= i < s.len() ==> lower(#[trigger] s[i]) == ascii_bytes(word)[i]
}

/// A sign.
pub open spec fn is_sign(b: u8) -> bool {
    b == 43 || b == 45
}

/// `s` without a sign before it.
pub open spec fn unsigned_part(s: Seq<u8>) -> Seq<u8> {
    if s.len() > 0 && is_sign(s[0]) {
        s.skip(1)
    } else {
        s
    }
}

/// `s` is digits alone, and at least one.
pub open spec fn is_digits(s: Seq<u8>) -> bool {
    s.len() > 0 && digit_run(s, 10) == s.len()
}

/// `s` is an exponent, or nothing: the letter E, and digits with or without a
/// sign before them.
pub open spec fn is_exponent(s: Seq<u8>) -> bool {
    s.len() == 0 || (lower(s[0]) == 101 && is_digits(unsigned_part(s.skip(1))))
}

/// How many digits follow the point that `s` starts with; none without a point.
pub open spec fn fraction_run(s: Seq<u8>) -> nat {
    if s.len() > 0 && s[0] == 46 {
        digit_run(s.skip(1), 10)
    } else {
        0
    }
}

/// What follows the point that `s` starts with and its digits.
pub open spec fn after_fraction(s: Seq<u8>) -> Seq<u8> {
    if s.len() > 0 && s[0] == 46 {
        s.skip(1 + fraction_run(s) as int)
    } else {
        s
    }
}

/// `s` is digits with or without a point among them, at least one, and an
/// exponent or nothing.
pub open spec fn is_decimal(s: Seq<u8>) -> bool {
    let whole = digit_run(s, 10);
    let rest = s.skip(whole as int);
    whole + fraction_run(rest) > 0 && is_exponent(after_fraction(rest))
}

/// What keeps `s` from being a number, if anything does. A number is a decimal,
/// an infinity or not-a-number, with or without a sign before it.
pub open spec fn float_fault(s: Seq<u8>) -> Option<FloatFault> {
    let body = unsigned_part(s);
    if s.len() == 0 {
        Some(FloatFault::Empty)
    } else if is_decimal(body) || is_word(body, "inf"@) || is_word(body, "infinity"@) || is_word(
        body,
        "nan"@,
    ) {
        None
    } else {
        Some(FloatFault::Invalid)
    }
}

/// What is said of a text that is no number.
pub fn float_fault_message(f: FloatFault) -> (r: &'static str)
    ensures
        r@ == float_fault_text(f),
{
    match f {
        FloatFault::Empty => "cannot parse float from empty string",
        FloatFault::Invalid => "invalid float literal",
    }
}

/// Where the digits from `from` on end.
fn digits_end(s: &[u8], from: usize) -> (r: usize)
    requires
        from <= s@.len(),
    ensures
        r == from + digit_run(s@.skip(from as int), 10),
        r <= s@.len(),
{
    let ghost body = s@.skip(from as int);
    let mut i: usize = from;
    while i < s.len() && to_digit(s[i], 10).is_some()
        invariant
            from <= i <= s@.len(),
            body == s@.skip(from as int),
            forall|k: int| 0 <= k < i - from ==> digit_value(#[trigger] body[k], 10) is Some,
        decreases s@.len() - i,
    {
        assert(body[i - from] == s@[i as int]);
        i = i + 1;
    }
    proof {
        if i < s@.len() {
            assert(body[i - from] == s@[i as int]);
        }
        lemma_run_exact(body, 10, i - from);
    }
    i
}

/// Whether the rest of `s` from `from` on is a word of small letters.
fn rest_is_word(s: &[u8], from: usize, word: &str) -> (r: bool)
    requires
        from <= s@.len(),
        forall|i: int| 0 <= i < word@.len() ==> '\0' <= #[trigger] word@[i] <= '\x7f',
    ensures
        r == is_word(s@.skip(from as int), word@),
{
    proof {
        lemma_ascii_utf8(word@);
    }
    let letters: &[u8] = word.as_bytes();
    assert(s.len() == s@.len());
    let ghost body = s@.skip(from as int);
    if s.len() - from != letters.len() {
        return false;
    }
    let mut i: usize = 0;
    while i < letters.len()
        invariant
            i <= letters@.len(),
            from + letters@.len() == s@.len() <= usize::MAX,
            letters@ == ascii_bytes(word@),
            body == s@.skip(from as int),
            forall|k: int| 0 <= k < i ==> lower(#[trigger] body[k]) == letters@[k],
        decreases letters@.len() - i,
    {
        let b: u8 = s[from + i];
        let small: u8 = if 65 <= b && b <= 90 {
            b + 32
        } else {
            b
        };
        assert(b == body[i as int]);
        if small != letters[i] {
            return false;
        }
        i = i + 1;
    }
    true
}

/// Whether the rest of `s` from `from` on is an exponent, or nothing.
fn rest_is_exponent(s: &[u8], from: usize) -> (r: bool)
    requires
        from <= s@.len(),
    ensures
        r == is_exponent(s@.skip(from as int)),
{
    let ghost rest = s@.skip(from as int);
    if from == s.len() {
        return true;
    }
    assert(rest[0] == s@[from as int]);
    if s[from] != 101 && s[from] != 69 {
        return false;
    }
    let mut at: usize = from + 1;
    assert(rest.skip(1) =~= s@.skip(at as int));
    if at < s.len() && (s[at] == 43 || s[at] == 45) {
        assert(s@.skip(at as int).skip(1) =~= s@.skip(at + 1));
        at = at + 1;
    }
    assert(unsigned_part(rest.skip(1)) =~= s@.skip(at as int));
    let end: usize = digits_end(s, at);
    at < s.len() && end == s.len()
}

/// Tells what keeps a text from being a number, if anything does.
pub fn check_float(s: &[u8]) -> (r: Option<FloatFault>)
    ensures
        r == float_fault(s@),
{
    if s.len() == 0 {
        return Some(FloatFault::Empty);
    }
    let start: usize = if s[0] == 43 || s[0] == 45 {
        1
    } else {
        0
    };
    let ghost body = unsigned_part(s@);
    assert(body =~= s@.skip(start as int));
    let whole_end: usize = digits_end(s, start);
    let ghost rest = body.skip(digit_run(body, 10) as int);
    assert(rest =~= s@.skip(whole_end as int));
    let mut digits: usize = whole_end - start;
    let mut end: usize = whole_end;
    if whole_end < s.len() && s[whole_end] == 46 {
        assert(rest[0] == s@[whole_end as int]);
        assert(rest.skip(1) =~= s@.skip(whole_end + 1));
        end = digits_end(s, whole_end + 1);
        digits = digits + (end - whole_end - 1);
        assert(after_fraction(rest) =~= s@.skip(end as int));
    } else {
        assert(rest.len() > 0 ==> rest[0] == s@[whole_end as int]);
        assert(after_fraction(rest) =~= s@.skip(end as int));
    }
    proof {
        reveal_strlit("inf");
        reveal_strlit("infinity");
        reveal_strlit("nan");
    }
    if (digits > 0 && rest_is_exponent(s, end)) || rest_is_word(s, start, "inf") || rest_is_word(
        s,
        start,
        "infinity",
    ) || rest_is_word(s, start, "nan") {
        None
    } else {
        Some(FloatFault::Invalid)
    }
}

/// `s` is decimal digits.
pub open spec fn all_decimal(s: Seq<u8>) -> bool {
    forall|i: int| 0 <= i < s.len() ==> 48 <= #[trigger] s[i] <= 57
}

/// Digits are read as a number of at most the limit, and only as that: one more digit
/// behind them makes it ten times as large, and adds the digit, for as long as it stays
/// within the limit, and is refused as too large from then on. A sign before them counts.
pub proof fn lemma_decimal_grows(s: Seq<u8>, d: u8, max: nat)
    requires
        s.len() > 0,
        all_decimal(s),
        d < 10,
    ensures
        d <= max ==> unsigned_value(seq![(48 + d) as u8], 10, max) == Ok::<nat, IntFault>(d as nat),
        match unsigned_value(s, 10, max) {
            Ok(v) => v <= max && unsigned_value(s.push((48 + d) as u8), 10, max) == (if 10 * v + d
                <= max {
                Ok::<nat, IntFault>(10 * v + d as nat)
            } else {
                Err::<nat, IntFault>(IntFault::PosOverflow)
            }),
            Err(f) => f == IntFault::PosOverflow && unsigned_value(s.push((48 + d) as u8), 10, max)
                == Err::<nat, IntFault>(IntFault::PosOverflow),
        },
        unsigned_value(seq![43u8] + s, 10, max) == unsigned_value(s, 10, max),
        unsigned_value(s, 10, 0x7fff_ffff) matches Ok(v) ==> signed_value(s) == Ok::<
            int,
            IntFault,
        >(v as int) && signed_value(seq![45u8] + s) == Ok::<int, IntFault>(-(v as int)),
        signed_value(seq![43u8] + s) == signed_value(s),
        unsigned_value(s, 10, 0x7fff_ffff) is Err ==> signed_value(s) == Err::<int, IntFault>(
            IntFault::PosOverflow,
        ),
        match unsigned_value(s, 10, 0x8000_0000) {
            Ok(v) => signed_value(seq![45u8] + s) == Ok::<int, IntFault>(-(v as int)),
            Err(_) => signed_value(seq![45u8] + s) == Err::<int, IntFault>(IntFault::NegOverflow),
        },
{
    reveal_with_fuel(digits_value, 2);
    let one = seq![(48 + d) as u8];
    let t = s.push((48 + d) as u8);
    assert(one.drop_last() =~= Seq::<u8>::empty());
    lemma_run_exact(one, 10, 1);
    assert(one.take(1) =~= one);
    lemma_run_exact(s, 10, s.len() as int);
    assert(s.take(s.len() as int) =~= s);
    lemma_run_exact(t, 10, t.len() as int);
    assert(t.take(t.len() as int) =~= t);
    assert(t.drop_last() =~= s);
    assert((seq![43u8] + s).skip(1) =~= s);
    assert((seq![45u8] + s).skip(1) =~= s);
}

/// What is not a number of the wanted range is refused: a text that is empty, or that
/// holds anything but digits behind its first character.
pub proof fn lemma_decimal_refused(s: Seq<u8>, max: nat, i: int)
    requires
        s.len() == 0 || 0 < i < s.len() && !(48 <= s[i] <= 57),
    ensures
        unsigned_value(s, 10, max) is Err,
        signed_value(s) is Err,
{
    if s.len() > 0 {
        let t = s.skip(1);
        if digit_run(s, 10) == s.len() {
            lemma_run_digits(s, 10, i);
        }
        if digit_run(t, 10) == t.len() {
            lemma_run_digits(t, 10, i - 1);
        }
        lemma_run_bound(s, 10);
        lemma_run_bound(t, 10);
    }
}

/// All bytes of a run are digits.
proof fn lemma_run_digits(s: Seq<u8>, radix: nat, i: int)
    requires
        0 <= i < digit_run(s, radix),
        i < s.len(),
    ensures
        digit_value(s[i], radix) is Some,
    decreases s.len(),
{
    if i > 0 {
        lemma_run_digits(s.skip(1), radix, i - 1);
        assert(s.skip(1)[i - 1] == s[i]);
    }
}

/// A text of digits with a point among them or at either end is a number, however long it
/// is, with or without a sign, and with or without an exponent behind it.
#[verifier::rlimit(50)]
pub proof fn lemma_float_forms(a: Seq<u8>, b: Seq<u8>, e: Seq<u8>)
    requires
        all_decimal(a),
        all_decimal(b),
        all_decimal(e),
        a.len() + b.len() > 0,
        e.len() > 0,
    ensures
        a.len() > 0 ==> float_fault(a) is None,
        float_fault(a + seq![46u8] + b) is None,
        float_fault(seq![45u8] + (a + seq![46u8] + b)) is None,
        float_fault(a + seq![46u8] + b + seq![101u8] + e) is None,
        float_fault(a + seq![46u8] + b + seq![69u8, 45u8] + e) is None,
        float_fault(a + seq![46u8] + b + seq![101u8, 43u8] + e) is None,
{
    lemma_decimal_with(a, b, Seq::empty());
    lemma_decimal_with(a, b, seq![101u8] + e);
    lemma_decimal_with(a, b, seq![69u8, 45u8] + e);
    lemma_decimal_with(a, b, seq![101u8, 43u8] + e);
    lemma_run_exact(e, 10, e.len() as int);
    assert((seq![101u8] + e).skip(1) =~= e);
    assert((seq![69u8, 45u8] + e).skip(1).skip(1) =~= e);
    assert((seq![101u8, 43u8] + e).skip(1).skip(1) =~= e);
    let s = a + seq![46u8] + b;
    assert(s + Seq::<u8>::empty() =~= s);
    assert(s + seq![101u8] + e =~= s + (seq![101u8] + e));
    assert(s + seq![69u8, 45u8] + e =~= s + (seq![69u8, 45u8] + e));
    assert(s + seq![101u8, 43u8] + e =~= s + (seq![101u8, 43u8] + e));
    assert((seq![45u8] + s).skip(1) =~= s);
    assert(!is_sign(s[0]));
    if a.len() > 0 {
        lemma_run_exact(a, 10, a.len() as int);
        assert(a.skip(a.len() as int).len() == 0);
        assert(!is_sign(a[0]));
    }
}

/// Digits round a point, and what follows them.
proof fn lemma_decimal_with(a: Seq<u8>, b: Seq<u8>, rest: Seq<u8>)
    requires
        all_decimal(a),
        all_decimal(b),
        a.len() + b.len() > 0,
        rest.len() > 0 ==> !(48 <= rest[0] <= 57),
    ensures
        is_exponent(rest) <==> is_decimal(a + seq![46u8] + b + rest),
{
    let s = a + seq![46u8] + b + rest;
    lemma_run_exact(s, 10, a.len() as int);
    let tail = s.skip(a.len() as int);
    assert(tail =~= seq![46u8] + b + rest);
    assert(tail.skip(1) =~= b + rest);
    lemma_run_exact(b + rest, 10, b.len() as int);
    assert(tail.skip(1 + b.len() as int) =~= rest);
}

/// What is read as a number lies in the range that is asked for.
pub proof fn lemma_value_bounds(s: Seq<u8>, radix: nat, max: nat)
    ensures
        unsigned_value(s, radix, max) matches Ok(v) ==> v <= max,
        signed_value(s) matches Ok(v) ==> i32::MIN <= v <= i32::MAX,
{
}

/// Hexadecimal digits are read as a number of at most the limit, letters in either case:
/// one more digit behind them makes it sixteen times as large, and adds the digit.
pub proof fn lemma_hex_grows(s: Seq<u8>, b: u8, d: nat, max: nat)
    requires
        s.len() > 0,
        forall|i: int|
            0 <= i < s.len() ==> (48 <= #[trigger] s[i] <= 57 || 97 <= s[i] <= 102 || 65 <= s[i]
                <= 70),
        48 <= b <= 57 && d == b - 48 || 97 <= b <= 102 && d == b - 87 || 65 <= b <= 70 && d == b
            - 55,
    ensures
        d <= max ==> unsigned_value(seq![b], 16, max) == Ok::<nat, IntFault>(d),
        match unsigned_value(s, 16, max) {
            Ok(v) => v <= max && unsigned_value(s.push(b), 16, max) == (if 16 * v + d <= max {
                Ok::<nat, IntFault>((16 * v + d) as nat)
            } else {
                Err::<nat, IntFault>(IntFault::PosOverflow)
            }),
            Err(f) => f == IntFault::PosOverflow && unsigned_value(s.push(b), 16, max) == Err::<
                nat,
                IntFault,
            >(IntFault::PosOverflow),
        },
{
    reveal_with_fuel(digits_value, 2);
    let one = seq![b];
    let t = s.push(b);
    assert(one.drop_last() =~= Seq::<u8>::empty());
    lemma_run_exact(one, 16, 1);
    assert(one.take(1) =~= one);
    lemma_run_exact(s, 16, s.len() as int);
    assert(s.take(s.len() as int) =~= s);
    lemma_run_exact(t, 16, t.len() as int);
    assert(t.take(t.len() as int) =~= t);
    assert(t.drop_last() =~= s);
}

/// The letter, or another byte, in lower case.
pub open spec fn folded(b: u8) -> int {
    if 65 <= b <= 90 {
        b + 32
    } else {
        b as int
    }
}

/// A number without a sign is one of three words in any case, or starts with a digit or a
/// point and holds nothing but digits, points, signs and the letter E, with a digit or a
/// point at its end.
#[verifier::rlimit(50)]
pub proof fn lemma_float_bytes(s: Seq<u8>)
    requires
        float_fault(s) is None,
        s.len() > 0,
        s[0] != 43,
        s[0] != 45,
    ensures
        ({
            ||| folded(s[0]) == 105 && (s.len() == 3 || s.len() == 8)
            ||| folded(s[0]) == 110 && s.len() == 3
            ||| {
                &&& 48 <= s[0] <= 57 || s[0] == 46
                &&& 48 <= s.last() <= 57 || s.last() == 46
                &&& forall|i: int|
                    0 <= i < s.len() ==> (48 <= #[trigger] s[i] <= 57 || s[i] == 46 || s[i] == 43
                        || s[i] == 45 || s[i] == 101 || s[i] == 69)
                &&& exists|i: int| 0 <= i < s.len() && 48 <= #[trigger] s[i] <= 57
            }
        }),
{
    reveal_strlit("inf");
    reveal_strlit("infinity");
    reveal_strlit("nan");
    if is_word(s, "inf"@) || is_word(s, "infinity"@) || is_word(s, "nan"@) {
        assert("inf"@[0] == 'i' && "infinity"@[0] == 'i' && "nan"@[0] == 'n');
    } else {
        assert(is_decimal(s));
        let whole = digit_run(s, 10) as int;
        lemma_run_bound(s, 10);
        let rest = s.skip(whole);
        assert forall|i: int| 0 <= i < whole implies 48 <= #[trigger] s[i] <= 57 by {
            lemma_run_digits(s, 10, i);
        }
        let point = rest.len() > 0 && rest[0] == 46;
        let after = rest.skip(1);
        let run = fraction_run(rest) as int;
        lemma_run_bound(after, 10);
        let e = after_fraction(rest);
        let from = if point {
            whole + 1 + run
        } else {
            whole
        };
        assert(e =~= s.skip(from));
        if point {
            assert(s[whole] == 46);
            assert forall|i: int| whole < i < from implies 48 <= #[trigger] s[i] <= 57 by {
                lemma_run_digits(after, 10, i - whole - 1);
                assert(after[i - whole - 1] == s[i]);
            }
        }
        if whole == 0 {
            assert(48 <= s[1] <= 57);
        }
        if e.len() > 0 {
            let x = e.skip(1);
            let d = unsigned_part(x);
            let start = from + 1 + (x.len() - d.len());
            assert(d =~= s.skip(start));
            assert forall|i: int| start <= i < s.len() implies 48 <= #[trigger] s[i] <= 57 by {
                lemma_run_digits(d, 10, i - start);
                assert(d[i - start] == s[i]);
            }
            assert(s[from] == e[0]);
            if x.len() > d.len() {
                assert(s[from + 1] == x[0]);
            }
        }
    }
}

} // verus!
