//! Decimal integer parsing with the grammar and error kinds of `str::parse`
//! for Rust's integer types.
use vstd::prelude::*;
use vstd::arithmetic::power2::{lemma2_to64, lemma2_to64_rest, lemma_pow2_adds, lemma_pow2_strictly_increases, lemma_pow2_unfold, pow2};

verus! {

/// Why a decimal integer was rejected (the kinds of `core::num::IntErrorKind`
/// that decimal parsing can produce).
#[derive(Debug, Clone, Copy, PartialEq, Eq)]
pub enum IntErrorKind {
    Empty,
    InvalidDigit,
    PosOverflow,
    NegOverflow,
}

/// The message `ParseIntError` displays for each kind.
pub open spec fn kind_message(kind: IntErrorKind) -> Seq<char> {
    match kind {
        IntErrorKind::Empty => "cannot parse integer from empty string"@,
        IntErrorKind::InvalidDigit => "invalid digit found in string"@,
        IntErrorKind::PosOverflow => "number too large to fit in target type"@,
        IntErrorKind::NegOverflow => "number too small to fit in target type"@,
    }
}

impl IntErrorKind {
    /// The message `ParseIntError` displays for this kind.
    pub fn message(self) -> (m: &'static str)
        ensures
            m@ == kind_message(self),
    {
        match self {
            IntErrorKind::Empty => "cannot parse integer from empty string",
            IntErrorKind::InvalidDigit => "invalid digit found in string",
            IntErrorKind::PosOverflow => "number too large to fit in target type",
            IntErrorKind::NegOverflow => "number too small to fit in target type",
        }
    }
}

pub open spec fn is_digit(c: char) -> bool {
    '0' <= c && c <= '9'
}

pub open spec fn digit_value(c: char) -> nat {
    (c as int - '0' as int) as nat
}

pub open spec fn all_digits(d: Seq<char>) -> bool {
    forall|i: int| 0 <= i < d.len() ==> is_digit(#[trigger] d[i])
}

/// The value of a string of decimal digits.
pub open spec fn decimal_value(d: Seq<char>) -> nat
    decreases d.len(),
{
    if d.len() == 0 {
        0
    } else {
        decimal_value(d.drop_last()) * 10 + digit_value(d.last())
    }
}

/// Parsing a non-negative integer no greater than `max`: an optional `+`, then
/// one or more ASCII digits.
pub open spec fn parse_unsigned_spec(s: Seq<char>, max: nat) -> Result<nat, IntErrorKind> {
    if s.len() == 0 {
        Err(IntErrorKind::Empty)
    } else {
        let d = if s[0] == '+' {
            s.drop_first()
        } else {
            s
        };
        if d.len() == 0 || !all_digits(d) {
            Err(IntErrorKind::InvalidDigit)
        } else if decimal_value(d) > max {
            Err(IntErrorKind::PosOverflow)
        } else {
            Ok(decimal_value(d))
        }
    }
}

/// Parsing an `i64`: an optional `+` or `-`, then one or more ASCII digits.
pub open spec fn parse_i64_spec(s: Seq<char>) -> Result<int, IntErrorKind> {
    if s.len() == 0 {
        Err(IntErrorKind::Empty)
    } else {
        let negative = s[0] == '-';
        let d = if s[0] == '+' || s[0] == '-' {
            s.drop_first()
        } else {
            s
        };
        if d.len() == 0 || !all_digits(d) {
            Err(IntErrorKind::InvalidDigit)
        } else if negative && decimal_value(d) > 0x8000_0000_0000_0000 {
            Err(IntErrorKind::NegOverflow)
        } else if !negative && decimal_value(d) > 0x7fff_ffff_ffff_ffff {
            Err(IntErrorKind::PosOverflow)
        } else if negative {
            Ok(-(decimal_value(d) as int))
        } else {
            Ok(decimal_value(d) as int)
        }
    }
}

proof fn lemma_prefix_value_le(d: Seq<char>, k: int)
    requires
        0 <= k <= d.len(),
    ensures
        decimal_value(d.take(k)) <= decimal_value(d),
    decreases d.len() - k,
{
    if k < d.len() {
        lemma_prefix_value_le(d, k + 1);
        assert(d.take(k + 1).drop_last() =~= d.take(k));
    } else {
        assert(d.take(k) =~= d);
    }
}

/// Scans the digits `s[from..]`, which must all be ASCII digits, computing
/// their value unless it exceeds `max`.
fn digits_value(s: &[char], from: usize, max: u64) -> (r: Option<u64>)
    requires
        from <= s@.len(),
        all_digits(s@.skip(from as int)),
    ensures
        r matches Some(v) ==> v == decimal_value(s@.skip(from as int)) && v <= max,
        r is None ==> decimal_value(s@.skip(from as int)) > max,
{
    let ghost d = s@.skip(from as int);
    let mut value: u64 = 0;
    let mut i = from;
    while i < s.len()
        invariant
            from <= i <= s@.len(),
            d == s@.skip(from as int),
            all_digits(d),
            value == decimal_value(d.take(i - from)),
            value <= max,
        decreases s@.len() - i,
    {
        assert(is_digit(d[i - from]));
        assert(d[i - from] == s@[i as int]);
        let digit = (s[i] as u32 - '0' as u32) as u64;
        assert(d.take(i + 1 - from).drop_last() =~= d.take(i - from));
        if digit > max || value > (max - digit) / 10 {
            proof {
                if digit <= max {
                    assert(value * 10 + digit > max) by (nonlinear_arith)
                        requires
                            value > (max - digit) / 10,
                            digit <= max,
                    ;
                }
                lemma_prefix_value_le(d, i + 1 - from);
            }
            return None;
        }
        assert(value * 10 + digit <= max) by (nonlinear_arith)
            requires
                value <= (max - digit) / 10,
                digit <= 9,
        ;
        value = value * 10 + digit;
        i = i + 1;
    }
    assert(d.take(i - from) =~= d);
    Some(value)
}

fn all_digits_from(s: &[char], from: usize) -> (b: bool)
    requires
        from <= s@.len(),
    ensures
        b == all_digits(s@.skip(from as int)),
{
    let mut i = from;
    while i < s.len()
        invariant
            from <= i <= s@.len(),
            forall|k: int| from <= k < i ==> is_digit(#[trigger] s@[k]),
        decreases s@.len() - i,
    {
        if !('0' <= s[i] && s[i] <= '9') {
            assert(!is_digit(s@.skip(from as int)[i - from]));
            return false;
        }
        i = i + 1;
    }
    assert forall|k: int| 0 <= k < s@.skip(from as int).len() implies is_digit(
        #[trigger] s@.skip(from as int)[k],
    ) by {
        assert(s@.skip(from as int)[k] == s@[from + k]);
    }
    true
}

/// Parses a non-negative integer no greater than `max` as `str::parse` does.
pub fn parse_unsigned(s: &[char], max: u64) -> (r: Result<u64, IntErrorKind>)
    ensures
        match parse_unsigned_spec(s@, max as nat) {
            Ok(v) => r == Ok::<u64, IntErrorKind>(v as u64),
            Err(e) => r == Err::<u64, IntErrorKind>(e),
        },
{
    if s.len() == 0 {
        return Err(IntErrorKind::Empty);
    }
    let from: usize = if s[0] == '+' {
        1
    } else {
        0
    };
    proof {
        if s@[0] == '+' {
            assert(s@.skip(1) =~= s@.drop_first());
        } else {
            assert(s@.skip(0) =~= s@);
        }
    }
    if from == s.len() || !all_digits_from(s, from) {
        return Err(IntErrorKind::InvalidDigit);
    }
    match digits_value(s, from, max) {
        Some(v) => Ok(v),
        None => Err(IntErrorKind::PosOverflow),
    }
}

/// `str::parse::<u32>`.
pub fn parse_u32_chars(s: &[char]) -> (r: Result<u32, IntErrorKind>)
    ensures
        match parse_unsigned_spec(s@, u32::MAX as nat) {
            Ok(v) => r == Ok::<u32, IntErrorKind>(v as u32),
            Err(e) => r == Err::<u32, IntErrorKind>(e),
        },
{
    match parse_unsigned(s, u32::MAX as u64) {
        Ok(v) => Ok(v as u32),
        Err(e) => Err(e),
    }
}

/// `str::parse::<u64>`.
pub fn parse_u64_chars(s: &[char]) -> (r: Result<u64, IntErrorKind>)
    ensures
        match parse_unsigned_spec(s@, u64::MAX as nat) {
            Ok(v) => r == Ok::<u64, IntErrorKind>(v as u64),
            Err(e) => r == Err::<u64, IntErrorKind>(e),
        },
{
    parse_unsigned(s, u64::MAX)
}

/// `str::parse::<usize>`.
pub fn parse_usize_chars(s: &[char]) -> (r: Result<usize, IntErrorKind>)
    ensures
        match parse_unsigned_spec(s@, usize::MAX as nat) {
            Ok(v) => r == Ok::<usize, IntErrorKind>(v as usize),
            Err(e) => r == Err::<usize, IntErrorKind>(e),
        },
{
    match parse_unsigned(s, usize::MAX as u64) {
        Ok(v) => Ok(v as usize),
        Err(e) => Err(e),
    }
}

/// `str::parse::<i64>`.
pub fn parse_i64_chars(s: &[char]) -> (r: Result<i64, IntErrorKind>)
    ensures
        match parse_i64_spec(s@) {
            Ok(v) => r == Ok::<i64, IntErrorKind>(v as i64),
            Err(e) => r == Err::<i64, IntErrorKind>(e),
        },
{
    if s.len() == 0 {
        return Err(IntErrorKind::Empty);
    }
    let negative = s[0] == '-';
    let from: usize = if s[0] == '+' || s[0] == '-' {
        1
    } else {
        0
    };
    proof {
        if from == 1 {
            assert(s@.skip(1) =~= s@.drop_first());
        } else {
            assert(s@.skip(0) =~= s@);
        }
    }
    if from == s.len() || !all_digits_from(s, from) {
        return Err(IntErrorKind::InvalidDigit);
    }
    if negative {
        match digits_value(s, from, 0x8000_0000_0000_0000) {
            Some(v) => {
                if v == 0x8000_0000_0000_0000 {
                    Ok(i64::MIN)
                } else {
                    Ok(-(v as i64))
                }
            },
            None => Err(IntErrorKind::NegOverflow),
        }
    } else {
        match digits_value(s, from, 0x7fff_ffff_ffff_ffff) {
            Some(v) => Ok(v as i64),
            None => Err(IntErrorKind::PosOverflow),
        }
    }
}


pub open spec fn digit_char(d: nat) -> char
    recommends
        d < 10,
{
    ('0' as int + d) as char
}

/// The decimal digits of `n` without leading zeros (`"0"` for zero).
pub open spec fn decimal_digits(n: nat) -> Seq<char>
    decreases n,
{
    if n < 10 {
        seq![digit_char(n)]
    } else {
        decimal_digits(n / 10).push(digit_char(n % 10))
    }
}

/// Reading back the digits that `decimal_digits` writes gives the number.
pub proof fn lemma_decimal_roundtrip(n: nat)
    ensures
        all_digits(decimal_digits(n)),
        decimal_value(decimal_digits(n)) == n,
        decimal_digits(n).len() > 0,
    decreases n,
{
    if n >= 10 {
        lemma_decimal_roundtrip(n / 10);
        let d = decimal_digits(n);
        assert(digit_value(digit_char(n % 10)) == n % 10);
        assert((n / 10) * 10 + n % 10 == n);
        assert(d.drop_last() =~= decimal_digits(n / 10));
        assert(d.last() == digit_char(n % 10));
        assert(decimal_value(d) == decimal_value(d.drop_last()) * 10 + digit_value(d.last()));
        assert(decimal_value(d) == n);
        assert forall|i: int| 0 <= i < d.len() implies is_digit(#[trigger] d[i]) by {
            if i < d.len() - 1 {
                assert(d[i] == decimal_digits(n / 10)[i]);
            }
        }
    } else {
        assert(decimal_digits(n).drop_last() =~= Seq::<char>::empty());
        assert(digit_value(digit_char(n)) == n);
        let d = decimal_digits(n);
        assert(decimal_value(d) == decimal_value(d.drop_last()) * 10 + digit_value(d.last()));
    }
}

/// Formats `n` in decimal, as `Display` does for unsigned integers.
pub fn format_u64(n: u64) -> (v: Vec<char>)
    ensures
        v@ == decimal_digits(n as nat),
    decreases n,
{
    if n < 10 {
        let c = char_of_digit(n);
        let mut v: Vec<char> = Vec::new();
        v.push(c);
        assert(v@ =~= seq![digit_char(n as nat)]);
        v
    } else {
        let mut v = format_u64(n / 10);
        v.push(char_of_digit(n % 10));
        v
    }
}

fn char_of_digit(d: u64) -> (c: char)
    requires
        d < 10,
    ensures
        c == digit_char(d as nat),
{
    if d == 0 {
        '0'
    } else if d == 1 {
        '1'
    } else if d == 2 {
        '2'
    } else if d == 3 {
        '3'
    } else if d == 4 {
        '4'
    } else if d == 5 {
        '5'
    } else if d == 6 {
        '6'
    } else if d == 7 {
        '7'
    } else if d == 8 {
        '8'
    } else {
        '9'
    }
}

/// Parsing what `format_u64` wrote gives the number back.
pub proof fn lemma_format_parse_roundtrip(n: u64)
    ensures
        parse_unsigned_spec(decimal_digits(n as nat), u64::MAX as nat) == Ok::<nat, IntErrorKind>(
            n as nat,
        ),
{
    lemma_decimal_roundtrip(n as nat);
    let d = decimal_digits(n as nat);
    assert(d[0] != '+') by {
        assert(is_digit(d[0]));
    }
}

/// The bits of the double-precision number `n` whose leading one is bit `e`
/// (so `2^e <= n < 2^(e + 1)`): the biased exponent `1023 + e` above the 52
/// fraction bits, which hold the bits of `n` below its leading one.
pub open spec fn double_bits(n: nat, e: nat) -> int {
    (1023 + e) * pow2(52) + (n - pow2(e)) * pow2((52 - e) as nat)
}

/// The largest magnitude below which every whole number is a double exactly.
pub const EXACT_DOUBLE_LIMIT: u64 = 0x20_0000_0000_0000;

/// Whether bit `e` is the leading one of `n`.
pub open spec fn leading_bit(n: nat, e: nat) -> bool {
    pow2(e) <= n < pow2(e + 1)
}

/// The bits of the double-precision value of the whole number `n`, which is
/// exact below `2^53`: zero for zero, else the encoding with the exponent of
/// `n`'s leading one.
pub open spec fn exact_double(n: nat) -> int {
    if n == 0 {
        0
    } else {
        double_bits(n, choose|e: nat| #[trigger] leading_bit(n, e))
    }
}

/// A number has one leading one.
pub proof fn lemma_leading_bit_unique(n: nat, e1: nat, e2: nat)
    requires
        leading_bit(n, e1),
        leading_bit(n, e2),
    ensures
        e1 == e2,
{
    if e1 < e2 {
        if e1 + 1 < e2 {
            lemma_pow2_strictly_increases(e1 + 1, e2);
        }
    } else if e2 < e1 {
        if e2 + 1 < e1 {
            lemma_pow2_strictly_increases(e2 + 1, e1);
        }
    }
}

/// The bits of the double-precision value of the whole number `n`.
pub fn count_bits(n: u64) -> (b: u64)
    requires
        n < EXACT_DOUBLE_LIMIT,
    ensures
        b == exact_double(n as nat),
        b < 0x8000_0000_0000_0000,
{
    if n == 0 {
        return 0;
    }
    proof {
        lemma2_to64();
        lemma2_to64_rest();
    }
    let mut k: u64 = 0;
    let mut p: u64 = 1;
    while p <= n / 2
        invariant
            0 < n < EXACT_DOUBLE_LIMIT,
            k <= 52,
            p == pow2(k as nat),
            1 <= p <= n,
        decreases n - p,
    {
        proof {
            lemma2_to64();
            lemma2_to64_rest();
            lemma_pow2_unfold((k + 1) as nat);
        }
        p = p * 2;
        k = k + 1;
    }
    proof {
        lemma_pow2_unfold((k + 1) as nat);
        lemma_pow2_adds(k as nat, (52 - k) as nat);
        assert((k as nat + (52 - k) as nat) as nat == 52);
        assert(pow2(k as nat) * pow2((52 - k) as nat) == pow2(52));
    }
    let unit: u64 = 4503599627370496;
    let scale: u64 = unit / p;
    proof {
        assert(scale == pow2((52 - k) as nat)) by (nonlinear_arith)
            requires
                p * pow2((52 - k) as nat) == unit,
                p > 0,
                scale == unit / p,
        ;
        assert(n < 2 * p);
        assert((n - p) * scale < unit) by (nonlinear_arith)
            requires
                0 <= n - p < p,
                p * scale == unit,
                scale > 0,
        ;
    }
    assert((1023 + k) * unit <= 1075 * unit) by (nonlinear_arith)
        requires
            k <= 52,
    ;
    let b = (1023 + k) * unit + (n - p) * scale;
    proof {
        assert(leading_bit(n as nat, k as nat));
        let e = choose|e: nat| #[trigger] leading_bit(n as nat, e);
        lemma_leading_bit_unique(n as nat, e, k as nat);
    }
    b
}

} // verus!
