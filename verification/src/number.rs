//! Numbers as text: decimal and hexadecimal digits, parsing them, and sizes for display.

use vstd::prelude::*;
use vstd::string::StringExecFns;

use crate::text::chars_of;

verus! {

/// The character for a digit below sixteen; the letters are capitals.
pub open spec fn digit_char(d: int) -> char {
    if d < 10 {
        (48 + d) as char
    } else {
        (55 + d) as char
    }
}

/// The text for a digit below sixteen.
pub fn digit_text(d: u64) -> (res: &'static str)
    requires
        d < 16,
    ensures
        res@ == seq![digit_char(d as int)],
{
    proof {
        reveal_strlit("0");
        reveal_strlit("1");
        reveal_strlit("2");
        reveal_strlit("3");
        reveal_strlit("4");
        reveal_strlit("5");
        reveal_strlit("6");
        reveal_strlit("7");
        reveal_strlit("8");
        reveal_strlit("9");
        reveal_strlit("A");
        reveal_strlit("B");
        reveal_strlit("C");
        reveal_strlit("D");
        reveal_strlit("E");
        reveal_strlit("F");
    }
    let res = match d {
        0 => "0",
        1 => "1",
        2 => "2",
        3 => "3",
        4 => "4",
        5 => "5",
        6 => "6",
        7 => "7",
        8 => "8",
        9 => "9",
        10 => "A",
        11 => "B",
        12 => "C",
        13 => "D",
        14 => "E",
        _ => "F",
    };
    assert(res@ =~= seq![digit_char(d as int)]);
    res
}

/// The decimal digits of `n`, without leading zeros.
pub open spec fn decimal_text(n: nat) -> Seq<char>
    decreases n,
{
    if n < 10 {
        seq![digit_char(n as int)]
    } else {
        decimal_text(n / 10).push(digit_char((n % 10) as int))
    }
}

/// The decimal digits of `n`, without leading zeros.
pub fn decimal(n: u64) -> (res: String)
    ensures
        res@ == decimal_text(n as nat),
    decreases n,
{
    if n < 10 {
        digit_text(n).to_owned()
    } else {
        let mut res = decimal(n / 10);
        let ghost head = res@;
        res.append(digit_text(n % 10));
        assert(res@ == head.push(digit_char((n % 10) as int)));
        res
    }
}

/// The last `width` hexadecimal digits of `n`, with leading zeros.
pub open spec fn hex_text(n: nat, width: nat) -> Seq<char>
    decreases width,
{
    if width == 0 {
        Seq::empty()
    } else {
        hex_text(n / 16, (width - 1) as nat).push(digit_char((n % 16) as int))
    }
}

/// The last `width` hexadecimal digits of `n`, with leading zeros.
pub fn hex(n: u64, width: u32) -> (res: String)
    ensures
        res@ == hex_text(n as nat, width as nat),
    decreases width,
{
    if width == 0 {
        String::new()
    } else {
        let mut res = hex(n / 16, width - 1);
        let ghost head = res@;
        res.append(digit_text(n % 16));
        assert(res@ == head.push(digit_char((n % 16) as int)));
        res
    }
}

/// The value of a digit character: decimal digits, then letters of either case.
pub open spec fn digit_value(c: char) -> int {
    let v = c as int;
    if 48 <= v <= 57 {
        v - 48
    } else if 65 <= v <= 90 {
        v - 55
    } else if 97 <= v <= 122 {
        v - 87
    } else {
        -1
    }
}

/// `c` is a digit to the base `radix`.
pub open spec fn is_digit(c: char, radix: int) -> bool {
    0 <= digit_value(c) < radix
}

/// The number that the digits `s` write to the base `radix`.
pub open spec fn digits_value(s: Seq<char>, radix: int) -> int
    decreases s.len(),
{
    if s.len() == 0 {
        0
    } else {
        digits_value(s.drop_last(), radix) * radix + digit_value(s.last())
    }
}

/// `s` without a leading plus sign.
pub open spec fn unsigned_digits(s: Seq<char>) -> Seq<char> {
    if s.len() > 0 && s[0] == '+' {
        s.drop_first()
    } else {
        s
    }
}

/// `s` writes a number to the base `radix`: an optional plus sign and at least one digit.
pub open spec fn is_number(s: Seq<char>, radix: int) -> bool {
    let digits = unsigned_digits(s);
    &&& digits.len() > 0
    &&& forall|i: int| 0 <= i < digits.len() ==> is_digit(#[trigger] digits[i], radix)
}

/// The number that `s` writes to the base `radix`, if it writes one of at most 64 bits.
pub open spec fn parsed(s: Seq<char>, radix: int) -> Option<u64> {
    let value = digits_value(unsigned_digits(s), radix);
    if is_number(s, radix) && value <= u64::MAX {
        Some(value as u64)
    } else {
        None
    }
}

proof fn lemma_digits_value_grows(s: Seq<char>, k: int, radix: int)
    requires
        1 <= radix,
        0 <= k <= s.len(),
        forall|i: int| 0 <= i < s.len() ==> is_digit(#[trigger] s[i], radix),
    ensures
        0 <= digits_value(s.take(k), radix) <= digits_value(s, radix),
    decreases s.len(),
{
    if s.len() > 0 {
        let head = s.drop_last();
        lemma_digits_value_grows(head, if k < s.len() { k } else { k - 1 }, radix);
        let v = digits_value(head, radix);
        assert(is_digit(s[s.len() - 1], radix));
        assert(v <= v * radix) by (nonlinear_arith)
            requires
                0 <= v,
                1 <= radix,
        ;
        if k < s.len() {
            assert(head.take(k) == s.take(k));
        } else {
            assert(s.take(k) == s);
        }
    } else {
        assert(s.take(k) == s);
    }
}

/// The value of a digit character to the base `radix`.
fn digit_of(c: char, radix: u64) -> (res: Option<u64>)
    requires
        radix <= 36,
    ensures
        res is Some <==> is_digit(c, radix as int),
        res matches Some(d) ==> d == digit_value(c),
{
    let v: u32 = c as u32;
    let d: u64 = if 48 <= v && v <= 57 {
        (v - 48) as u64
    } else if 65 <= v && v <= 90 {
        (v - 55) as u64
    } else if 97 <= v && v <= 122 {
        (v - 87) as u64
    } else {
        return None;
    };
    if d < radix {
        Some(d)
    } else {
        None
    }
}

/// The number that `s` writes to the base `radix`, if it writes one of at most 64 bits.
pub fn parse(s: &str, radix: u64) -> (res: Option<u64>)
    requires
        2 <= radix <= 36,
    ensures
        res == parsed(s@, radix as int),
{
    let chars = chars_of(s);
    let from: usize = if chars.len() > 0 && chars[0] == '+' {
        1
    } else {
        0
    };
    let ghost digits = unsigned_digits(s@);
    assert(digits == s@.skip(from as int));
    if from == chars.len() {
        return None;
    }
    let mut value: u64 = 0;
    let mut i: usize = from;
    assert(digits.take(0) == Seq::<char>::empty());
    while i < chars.len()
        invariant
            chars@ == s@,
            2 <= radix <= 36,
            from <= i <= chars@.len(),
            from <= 1,
            digits == unsigned_digits(s@),
            digits == s@.skip(from as int),
            forall|k: int| 0 <= k < i - from ==> is_digit(#[trigger] digits[k], radix as int),
            value == digits_value(digits.take(i - from), radix as int),
        decreases chars.len() - i,
    {
        let ghost k = i - from;
        assert(digits[k] == chars@[i as int]);
        assert(digits.take(k + 1).drop_last() == digits.take(k));
        match digit_of(chars[i], radix) {
            None => {
                return None;
            },
            Some(d) => {
                assert((value as int) * (radix as int) <= u64::MAX * 36) by (nonlinear_arith)
                    requires
                        0 <= value <= u64::MAX,
                        0 <= radix <= 36,
                ;
                let next: u128 = (value as u128) * (radix as u128) + (d as u128);
                assert(next == digits_value(digits.take(k + 1), radix as int));
                if next > u64::MAX as u128 {
                    proof {
                        if is_number(s@, radix as int) {
                            lemma_digits_value_grows(digits, k + 1, radix as int);
                        }
                    }
                    return None;
                }
                value = next as u64;
            },
        }
        i = i + 1;
    }
    assert(digits.take(i - from) == digits);
    Some(value)
}

proof fn lemma_digit_char_value(d: int)
    requires
        0 <= d < 16,
    ensures
        digit_value(digit_char(d)) == d,
        digit_char(d) != '+',
{
}

/// The decimal digits of a number are read back as that number.
pub proof fn lemma_decimal_round_trip(n: u64)
    ensures
        parsed(decimal_text(n as nat), 10) == Some(n),
{
    lemma_decimal_value(n as nat);
}

proof fn lemma_decimal_value(n: nat)
    ensures
        decimal_text(n).len() > 0,
        decimal_text(n)[0] != '+',
        forall|i: int| 0 <= i < decimal_text(n).len() ==> is_digit(#[trigger] decimal_text(n)[i], 10),
        digits_value(decimal_text(n), 10) == n,
    decreases n,
{
    let s = decimal_text(n);
    lemma_digit_char_value((n % 10) as int);
    if n < 10 {
        assert(s.drop_last() == Seq::<char>::empty());
        assert(digits_value(s.drop_last(), 10) == 0);
    } else {
        lemma_decimal_value(n / 10);
        assert(s.drop_last() == decimal_text(n / 10));
    }
}

proof fn lemma_hex_value(n: nat, width: nat)
    ensures
        hex_text(n, width).len() == width,
        width > 0 ==> hex_text(n, width)[0] != '+',
        forall|i: int|
            0 <= i < hex_text(n, width).len() ==> is_digit(#[trigger] hex_text(n, width)[i], 16),
        n < vstd::arithmetic::power::pow(16, width) ==> digits_value(hex_text(n, width), 16) == n,
    decreases width,
{
    vstd::arithmetic::power::lemma_pow0(16);
    if width > 0 {
        let rest = (width - 1) as nat;
        lemma_digit_char_value((n % 16) as int);
        lemma_hex_value(n / 16, rest);
        assert(hex_text(n, width).drop_last() == hex_text(n / 16, rest));
        vstd::arithmetic::power::lemma_pow_adds(16, rest, 1);
        vstd::arithmetic::power::lemma_pow1(16);
    }
}

/// The sixteen hexadecimal digits of a number are read back as that number.
pub proof fn lemma_hex_round_trip(n: u64)
    ensures
        hex_text(n as nat, 16).len() == 16,
        parsed(hex_text(n as nat, 16), 16) == Some(n),
{
    lemma_hex_value(n as nat, 16);
    assert(vstd::arithmetic::power::pow(16, 16) == 0x1_0000_0000_0000_0000) by {
        reveal(vstd::arithmetic::power::pow);
        reveal_with_fuel(vstd::arithmetic::power::pow, 17);
    }
}

/// `n / d` rounded to the nearest whole number, halves to the even one.
pub open spec fn nearest(n: nat, d: nat) -> nat {
    let q = n / d;
    let r = n % d;
    if 2 * r > d || (2 * r == d && q % 2 == 1) {
        q + 1
    } else {
        q
    }
}

/// The distance between neighbouring double-precision numbers at `n`, at least one.
pub open spec fn double_step(n: nat) -> nat
    decreases n,
{
    if n < 0x20_0000_0000_0000 {
        1
    } else {
        2 * double_step(n / 2)
    }
}

/// The double-precision number nearest to `n`.
pub open spec fn as_double(n: nat) -> nat {
    nearest(n, double_step(n)) * double_step(n)
}

/// `n / unit` with one digit after the point, of the double-precision number nearest to `n`.
pub open spec fn tenths_text(n: nat, unit: nat) -> Seq<char> {
    let tenths = nearest(10 * as_double(n), unit);
    decimal_text(tenths / 10) + seq!['.', digit_char((tenths % 10) as int)]
}

/// A size in bytes for display: in mebibytes or kibibytes to one decimal, or in bytes.
pub open spec fn size_text(bytes: nat) -> Seq<char> {
    if bytes >= 0x10_0000 {
        tenths_text(bytes, 0x10_0000) + " MB"@
    } else if bytes >= 0x400 {
        tenths_text(bytes, 0x400) + " KB"@
    } else {
        decimal_text(bytes) + " B"@
    }
}

fn round_nearest(n: u128, d: u128) -> (res: u128)
    requires
        0 < d <= 0x1_0000_0000,
        n <= 0x100_0000_0000_0000_0000,
    ensures
        res == nearest(n as nat, d as nat),
{
    let q: u128 = n / d;
    let r: u128 = n % d;
    assert(q <= n) by (nonlinear_arith)
        requires
            q == n / d,
            0 < d,
    ;
    if 2 * r > d || (2 * r == d && q % 2 == 1) {
        q + 1
    } else {
        q
    }
}

fn step_at(n: u64) -> (res: u64)
    ensures
        res == double_step(n as nat),
        1 <= res <= 4096,
        n < 0x20_0000_0000_0000 ==> res == 1,
        n >= 0x20_0000_0000_0000 ==> res * 0x10_0000_0000_0000 <= n,
    decreases n,
{
    if n < 0x20_0000_0000_0000 {
        1
    } else {
        let half = step_at(n / 2);
        assert(n / 2 < 0x20_0000_0000_0000 ==> half == 1);
        assert(half * 0x10_0000_0000_0000 <= n / 2);
        2 * half
    }
}

/// The double-precision number nearest to `n`.
fn to_double(n: u64) -> (res: u128)
    ensures
        res == as_double(n as nat),
        res <= n + 4096,
{
    let step = step_at(n);
    let q = round_nearest(n as u128, step as u128);
    assert(q * step <= n + 4096 && 0 <= q * step) by (nonlinear_arith)
        requires
            1 <= step <= 4096,
            0 <= q <= n / step + 1,
            0 <= n,
    ;
    q * (step as u128)
}

fn tenths(n: u64, unit: u128) -> (res: String)
    requires
        unit == 0x400 || unit == 0x10_0000,
    ensures
        res@ == tenths_text(n as nat, unit as nat),
{
    let value = to_double(n);
    let t: u128 = round_nearest(10 * value, unit);
    assert(t <= 10 * value / (unit as int) + 1);
    let t64: u64 = t as u64;
    let mut res = decimal(t64 / 10);
    let ghost whole = res@;
    res.append(".");
    res.append(digit_text(t64 % 10));
    proof {
        reveal_strlit(".");
        assert(res@ == whole + seq!['.', digit_char((t64 % 10) as int)]);
    }
    res
}

/// A size in bytes for display: in mebibytes or kibibytes to one decimal, or in bytes.
pub fn format_size(bytes: u64) -> (res: String)
    ensures
        res@ == size_text(bytes as nat),
{
    if bytes >= 0x10_0000 {
        let mut res = tenths(bytes, 0x10_0000);
        res.append(" MB");
        res
    } else if bytes >= 0x400 {
        let mut res = tenths(bytes, 0x400);
        res.append(" KB");
        res
    } else {
        let mut res = decimal(bytes);
        res.append(" B");
        res
    }
}

/// Below 2^53 bytes nothing is lost to double precision: the text is the size itself, rounded
/// once.
pub proof fn law_small_sizes_are_exact(bytes: nat)
    requires
        bytes < 0x20_0000_0000_0000,
    ensures
        as_double(bytes) == bytes,
{
    let step = double_step(bytes);
    assert(nearest(bytes, step) * step == bytes) by (nonlinear_arith)
        requires
            nearest(bytes, step) == bytes,
            step == 1,
    ;
}

/// `c` is the character of the digit `v`: a decimal digit, or a letter of either case.
pub open spec fn writes_digit(c: char, v: int) -> bool {
    ||| 0 <= v <= 9 && c as int == '0' as int + v
    ||| 10 <= v <= 35 && c as int == 'A' as int + v - 10
    ||| 10 <= v <= 35 && c as int == 'a' as int + v - 10
}

/// A single digit is read as its value; anything else alone is no number, nor is nothing.
pub proof fn law_parsed_single_digit(c: char, radix: int)
    requires
        2 <= radix <= 36,
    ensures
        forall|v: int| 0 <= v < radix && #[trigger] writes_digit(c, v) ==> parsed(seq![c], radix)
            == Some(v as u64),
        parsed(seq![c], radix) is Some ==> exists|v: int|
            0 <= v < radix && #[trigger] writes_digit(c, v),
        parsed(Seq::empty(), radix) is None,
{
    let s = seq![c];
    assert(s.drop_first() == Seq::<char>::empty());
    assert(s.drop_last() == Seq::<char>::empty());
    assert(digits_value(s.drop_last(), radix) == 0);
    if is_number(s, radix) {
        assert(s[0] == c);
        assert(is_digit(unsigned_digits(s)[0], radix));
        assert(writes_digit(c, digit_value(c)));
    }
    assert forall|v: int| 0 <= v < radix && #[trigger] writes_digit(c, v) implies parsed(s, radix)
        == Some(v as u64) by {
        assert(digit_value(c) == v);
        assert(unsigned_digits(s) == s);
        assert(digits_value(s, radix) == 0 * radix + v);
    }
}

/// One digit more multiplies the number by the base and adds the digit; a number that is too
/// large for 64 bits then is none.
pub proof fn law_parsed_next_digit(s: Seq<char>, c: char, v: int, radix: int)
    requires
        2 <= radix <= 36,
        0 <= v < radix,
        writes_digit(c, v),
        parsed(s, radix) is Some,
    ensures
        parsed(s, radix)->0 * radix + v <= u64::MAX ==> parsed(s.push(c), radix) == Some(
            (parsed(s, radix)->0 * radix + v) as u64,
        ),
        parsed(s, radix)->0 * radix + v > u64::MAX ==> parsed(s.push(c), radix) is None,
{
    let digits = unsigned_digits(s);
    let more = unsigned_digits(s.push(c));
    assert(more == digits.push(c));
    assert(more.drop_last() == digits);
    assert(digit_value(c) == v);
    assert forall|i: int| 0 <= i < more.len() implies is_digit(#[trigger] more[i], radix) by {
        if i < digits.len() {
            assert(more[i] == digits[i]);
        }
    }
    lemma_digits_value_grows(digits, 0, radix);
    assert(digits_value(digits, radix) * radix + v >= 0) by (nonlinear_arith)
        requires
            digits_value(digits, radix) >= 0,
            radix >= 2,
            v >= 0,
    ;
}

/// What is read as a number is one up to its last character, which is a digit; a plus sign in
/// front changes nothing, but for a second one, and is no number alone.
pub proof fn law_parsed_has_digits_only(s: Seq<char>, c: char, radix: int)
    requires
        2 <= radix <= 36,
    ensures
        parsed(s.push(c), radix) is Some ==> exists|v: int|
            0 <= v < radix && #[trigger] writes_digit(c, v),
        parsed(s.push(c), radix) is Some && s.len() > 0 && s != seq!['+'] ==> parsed(s, radix) is Some,
        parsed(seq!['+'] + s, radix) == (if s.len() == 0 || s[0] == '+' {
            None
        } else {
            parsed(s, radix)
        }),
{
    let digits = unsigned_digits(s);
    let more = unsigned_digits(s.push(c));
    if parsed(s.push(c), radix) is Some {
        assert(s.len() == 0 && c == '+' ==> more == Seq::<char>::empty());
        assert(more == (if s.len() == 0 { seq![c] } else { digits.push(c) }));
        assert(is_digit(more[more.len() - 1], radix));
        assert(writes_digit(c, digit_value(c)));
        if s.len() > 0 && s != seq!['+'] {
            assert(digits.len() > 0) by {
                if digits.len() == 0 {
                    assert(s == seq!['+']);
                }
            }
            assert forall|i: int| 0 <= i < digits.len() implies is_digit(
                #[trigger] digits[i],
                radix,
            ) by {
                assert(more[i] == digits[i]);
            }
            lemma_digits_value_grows(more, digits.len() as int, radix);
            assert(more.take(digits.len() as int) == digits);
        }
    }
    assert((seq!['+'] + s).drop_first() == s);
    if s.len() > 0 && s[0] == '+' {
        assert(!is_digit(s[0], radix));
    }
}

/// The decimal digits of a number: digits only, no zero in front, and read back as the number.
pub proof fn law_decimal_digits(n: u64)
    ensures
        forall|i: int|
            0 <= i < decimal_text(n as nat).len() ==> '0' <= #[trigger] decimal_text(n as nat)[i]
                <= '9',
        decimal_text(n as nat).len() > 1 ==> decimal_text(n as nat)[0] != '0',
        parsed(decimal_text(n as nat), 10) == Some(n),
{
    lemma_decimal_round_trip(n);
    lemma_decimal_chars(n as nat);
}

proof fn lemma_decimal_chars(n: nat)
    ensures
        decimal_text(n).len() > 0,
        forall|i: int|
            0 <= i < decimal_text(n).len() ==> '0' <= #[trigger] decimal_text(n)[i] <= '9',
        n > 0 ==> decimal_text(n)[0] != '0',
        n < 10 ==> decimal_text(n).len() == 1,
    decreases n,
{
    if n >= 10 {
        lemma_decimal_chars(n / 10);
    }
}

/// Sixteen hexadecimal digits of a number: decimal digits and capitals only, read back as the
/// number.
pub proof fn law_hex_digits(n: u64)
    ensures
        hex_text(n as nat, 16).len() == 16,
        forall|i: int|
            0 <= i < 16 ==> ('0' <= #[trigger] hex_text(n as nat, 16)[i] <= '9' || 'A' <= hex_text(
                n as nat,
                16,
            )[i] <= 'F'),
        parsed(hex_text(n as nat, 16), 16) == Some(n),
{
    lemma_hex_round_trip(n);
    lemma_hex_chars(n as nat, 16);
}

proof fn lemma_hex_chars(n: nat, width: nat)
    ensures
        hex_text(n, width).len() == width,
        forall|i: int|
            0 <= i < width ==> ('0' <= #[trigger] hex_text(n, width)[i] <= '9' || 'A' <= hex_text(
                n,
                width,
            )[i] <= 'F'),
    decreases width,
{
    if width > 0 {
        lemma_hex_chars(n / 16, (width - 1) as nat);
    }
}

/// A size below 1024 is written in bytes, exactly.
pub proof fn law_small_size_is_read_back(bytes: u64)
    requires
        bytes < 1024,
    ensures
        ({
            let text = size_text(bytes as nat);
            let n = text.len() - 2;
            n > 0 && text.skip(n) == " B"@ && parsed(text.take(n), 10) == Some(bytes)
        }),
{
    let digits = decimal_text(bytes as nat);
    lemma_decimal_round_trip(bytes);
    lemma_decimal_chars(bytes as nat);
    reveal_strlit(" B");
    let text = size_text(bytes as nat);
    assert(text.skip(digits.len() as int) == " B"@);
    assert(text.take(digits.len() as int) == digits);
}

/// A larger size, below 2^53 bytes, is written with one digit behind the point, in kibibytes up to
/// a mebibyte and in mebibytes from there on. The number that is read back is the nearest tenth:
/// it is off by at most half a tenth, and where it is off by that its last digit is even.
pub proof fn law_size_is_the_nearest_tenth(bytes: u64)
    requires
        1024 <= bytes < 0x20_0000_0000_0000,
    ensures
        ({
            let text = size_text(bytes as nat);
            let n = text.len() - 5;
            let unit: int = if bytes < 0x10_0000 { 0x400 } else { 0x10_0000 };
            &&& n > 0
            &&& text.skip(n + 2) == (if bytes < 0x10_0000 { " KB"@ } else { " MB"@ })
            &&& text[n] == '.'
            &&& parsed(text.take(n), 10) is Some
            &&& '0' <= text[n + 1] <= '9'
            &&& ({
                let tenths = 10 * parsed(text.take(n), 10)->0 + (text[n + 1] as int - '0' as int);
                let off = 2 * (10 * bytes - tenths * unit);
                -unit <= off <= unit && ((off == unit || off == -unit) ==> tenths % 2 == 0)
            })
        }),
{
    let unit: nat = if bytes < 0x10_0000 { 0x400 } else { 0x10_0000 };
    law_small_sizes_are_exact(bytes as nat);
    let tenths = nearest(10 * bytes as nat, unit);
    assert(tenths <= 10 * bytes);
    let whole = decimal_text(tenths / 10);
    lemma_decimal_chars(tenths / 10);
    lemma_decimal_round_trip((tenths / 10) as u64);
    reveal_strlit(" KB");
    reveal_strlit(" MB");
    let text = size_text(bytes as nat);
    let n = whole.len() as int;
    assert(text.len() == n + 5);
    assert(text.take(n) == whole);
    assert(text.skip(n + 2) == (if bytes < 0x10_0000 { " KB"@ } else { " MB"@ }));
}

} // verus!
