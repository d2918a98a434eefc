use vstd::prelude::*;
use vstd::string::*;

verus! {

/// Why a length, an offset or a `path:offset` pair was rejected.
#[derive(Debug, Clone, Copy, PartialEq, Eq, Structural)]
pub enum ParseError {
    /// No digits follow the optional `0x` prefix.
    Empty,
    /// A character is not a digit of the number's radix.
    InvalidDigit,
    /// The number does not fit in 64 bits.
    Overflow,
    /// A `path:offset` pair holds no `:`.
    MissingSeparator,
}

/// The value of `c` as a digit of base `radix` (10 or 16), if it is one.
pub open spec fn digit_value(c: char, radix: nat) -> Option<nat> {
    let u = c as u32;
    if '0' as u32 <= u <= '9' as u32 {
        Some((u - '0' as u32) as nat)
    } else if radix == 16 && 'a' as u32 <= u <= 'f' as u32 {
        Some((u - 'a' as u32 + 10) as nat)
    } else if radix == 16 && 'A' as u32 <= u <= 'F' as u32 {
        Some((u - 'A' as u32 + 10) as nat)
    } else {
        None
    }
}

pub open spec fn all_digits(s: Seq<char>, radix: nat) -> bool {
    forall|i: int| 0 <= i < s.len() ==> (#[trigger] digit_value(s[i], radix)).is_some()
}

/// The number that a string of digits of base `radix` denotes.
pub open spec fn digits_value(s: Seq<char>, radix: nat) -> nat
    decreases s.len(),
{
    if s.len() == 0 {
        0
    } else {
        digits_value(s.drop_last(), radix) * radix + digit_value(s.last(), radix).unwrap()
    }
}

/// A number is hexadecimal when it starts with `0x` or `0X`.
pub open spec fn has_hex_prefix(s: Seq<char>) -> bool {
    s.len() >= 2 && s[0] == '0' && (s[1] == 'x' || s[1] == 'X')
}

pub open spec fn number_radix(s: Seq<char>) -> nat {
    if has_hex_prefix(s) { 16 } else { 10 }
}

/// The digits of a number, without its prefix.
pub open spec fn number_digits(s: Seq<char>) -> Seq<char> {
    if has_hex_prefix(s) { s.skip(2) } else { s }
}

/// What a length or an offset written as `s` denotes: decimal digits, or
/// hexadecimal digits after `0x` / `0X`.
pub open spec fn parse_number(s: Seq<char>) -> Result<u64, ParseError> {
    let d = number_digits(s);
    let radix = number_radix(s);
    if d.len() == 0 {
        Err(ParseError::Empty)
    } else if !all_digits(d, radix) {
        Err(ParseError::InvalidDigit)
    } else if digits_value(d, radix) > u64::MAX {
        Err(ParseError::Overflow)
    } else {
        Ok(digits_value(d, radix) as u64)
    }
}

/// `i` is the position of the first `:` in `s`.
pub open spec fn is_first_colon(s: Seq<char>, i: int) -> bool {
    0 <= i < s.len() && s[i] == ':' && forall|j: int| 0 <= j < i ==> s[j] != ':'
}

/// What a pair written as `s` denotes: the path before the first `:`, and
/// the offset after it.
pub open spec fn parse_pair(s: Seq<char>) -> Result<(Seq<char>, u64), ParseError> {
    if exists|i: int| is_first_colon(s, i) {
        let i = choose|i: int| is_first_colon(s, i);
        match parse_number(s.skip(i + 1)) {
            Ok(v) => Ok((s.take(i), v)),
            Err(e) => Err(e),
        }
    } else {
        Err(ParseError::MissingSeparator)
    }
}

/// A pair splits at its first `:`: when the path holds no `:`, the path
/// comes back whole, and the offset is read from all that follows the
/// separator, whatever further `:` it holds.
pub proof fn lemma_pair_splits_at_first_colon(path: Seq<char>, offset: Seq<char>)
    requires
        forall|j: int| 0 <= j < path.len() ==> path[j] != ':',
    ensures
        parse_pair(path + seq![':'] + offset) == match parse_number(offset) {
            Ok(v) => Ok::<(Seq<char>, u64), ParseError>((path, v)),
            Err(e) => Err::<(Seq<char>, u64), ParseError>(e),
        },
{
    let s = path + seq![':'] + offset;
    let n = path.len() as int;
    assert(is_first_colon(s, n));
    assert forall|k: int| is_first_colon(s, k) implies k == n by {
        if k < n {
            assert(s[k] == path[k]);
        } else if k > n {
            assert(s[n] == ':');
        }
    }
    assert(s.take(n) =~= path);
    assert(s.skip(n + 1) =~= offset);
}

proof fn lemma_prefix_value_le(s: Seq<char>, radix: nat, k: int)
    requires
        0 <= k <= s.len(),
        radix >= 1,
    ensures
        digits_value(s.take(k), radix) <= digits_value(s, radix),
    decreases s.len(),
{
    if k < s.len() {
        let t = s.drop_last();
        lemma_prefix_value_le(t, radix, k);
        assert(t.take(k) =~= s.take(k));
        assert(digits_value(t, radix) <= digits_value(t, radix) * radix) by (nonlinear_arith)
            requires radix >= 1;
    } else {
        assert(s.take(k) =~= s);
    }
}

fn digit_of(c: char, radix: u32) -> (r: Option<u32>)
    requires
        radix == 10 || radix == 16,
    ensures
        r matches Some(d) ==> digit_value(c, radix as nat) == Some(d as nat) && d < radix,
        r is None ==> digit_value(c, radix as nat) is None,
{
    let u = c as u32;
    if '0' as u32 <= u && u <= '9' as u32 {
        Some(u - '0' as u32)
    } else if radix == 16 && 'a' as u32 <= u && u <= 'f' as u32 {
        Some(u - 'a' as u32 + 10)
    } else if radix == 16 && 'A' as u32 <= u && u <= 'F' as u32 {
        Some(u - 'A' as u32 + 10)
    } else {
        None
    }
}

/// Whether every character of `input` from `start` on is a digit of base
/// `radix`.
fn digits_from(input: &str, start: usize, radix: u32) -> (r: bool)
    requires
        start <= input@.len(),
        radix == 10 || radix == 16,
    ensures
        r == all_digits(input@.skip(start as int), radix as nat),
{
    let ghost d = input@.skip(start as int);
    let n = input.unicode_len();
    let mut i: usize = start;
    while i < n
        invariant
            start <= i <= n,
            n == input@.len(),
            d == input@.skip(start as int),
            radix == 10 || radix == 16,
            forall|j: int| start <= j < i ==> (#[trigger] digit_value(input@[j], radix as nat)).is_some(),
        decreases n - i,
    {
        if digit_of(input.get_char(i), radix).is_none() {
            assert(d[i - start] == input@[i as int]);
            return false;
        }
        i = i + 1;
    }
    assert forall|j: int| 0 <= j < d.len() implies (#[trigger] digit_value(d[j], radix as nat)).is_some() by {
        assert(d[j] == input@[j + start]);
    }
    true
}

/// The number that the digits of `input` from `start` on denote, or `None`
/// when it does not fit in 64 bits.
fn value_from(input: &str, start: usize, radix: u32) -> (r: Option<u64>)
    requires
        start <= input@.len(),
        radix == 10 || radix == 16,
        all_digits(input@.skip(start as int), radix as nat),
    ensures
        r matches Some(v) ==> v as nat == digits_value(input@.skip(start as int), radix as nat),
        r is None ==> digits_value(input@.skip(start as int), radix as nat) > u64::MAX,
{
    let ghost d = input@.skip(start as int);
    let n = input.unicode_len();
    let mut v: u64 = 0;
    let mut i: usize = start;
    assert(d.take(0) =~= Seq::<char>::empty());
    while i < n
        invariant
            start <= i <= n,
            n == input@.len(),
            d == input@.skip(start as int),
            radix == 10 || radix == 16,
            all_digits(d, radix as nat),
            v as nat == digits_value(d.take(i - start), radix as nat),
        decreases n - i,
    {
        let c = input.get_char(i);
        let ghost k: int = i - start;
        assert(d.take(k + 1).drop_last() =~= d.take(k));
        assert(d[k] == c);
        assert(digit_value(d[k], radix as nat).is_some());
        let dg = match digit_of(c, radix) {
            Some(x) => x,
            None => {
                return None;
            },
        };
        let next = match v.checked_mul(radix as u64) {
            Some(m) => m.checked_add(dg as u64),
            None => None,
        };
        match next {
            Some(w) => {
                v = w;
            },
            None => {
                proof {
                    let t = digits_value(d.take(k + 1), radix as nat);
                    assert(t == v as nat * radix as nat + dg as nat);
                    assert(t > u64::MAX) by (nonlinear_arith)
                        requires
                            t == v as nat * radix as nat + dg as nat,
                            v as nat * radix as nat + dg as nat > u64::MAX,
                    ;
                    lemma_prefix_value_le(d, radix as nat, k + 1);
                }
                return None;
            },
        }
        i = i + 1;
    }
    assert(d.take(n - start) =~= d);
    Some(v)
}

/// Parses a length or an offset: decimal digits, or hexadecimal digits
/// after `0x` / `0X`.
pub fn parse_hex(input: &str) -> (r: Result<u64, ParseError>)
    ensures
        r == parse_number(input@),
{
    let n = input.unicode_len();
    let hex = n >= 2 && input.get_char(0) == '0' && (input.get_char(1) == 'x' || input.get_char(
        1,
    ) == 'X');
    let start: usize = if hex { 2 } else { 0 };
    let radix: u32 = if hex { 16 } else { 10 };
    assert(number_digits(input@) =~= input@.skip(start as int));
    if start == n {
        Err(ParseError::Empty)
    } else if !digits_from(input, start, radix) {
        Err(ParseError::InvalidDigit)
    } else {
        match value_from(input, start, radix) {
            Some(v) => Ok(v),
            None => Err(ParseError::Overflow),
        }
    }
}

/// Parses a pair `path:offset`. The path is what stands before the first
/// `:`, the offset what follows it, read as `parse_hex` reads a number.
pub fn parse_key_val(s: &str) -> (r: Result<(String, u64), ParseError>)
    ensures
        r matches Ok((p, v)) ==> parse_pair(s@) == Ok::<(Seq<char>, u64), ParseError>((p@, v)),
        r matches Err(e) ==> parse_pair(s@) == Err::<(Seq<char>, u64), ParseError>(e),
{
    let n = s.unicode_len();
    let mut i: usize = 0;
    while i < n
        invariant
            i <= n,
            n == s@.len(),
            forall|j: int| 0 <= j < i ==> s@[j] != ':',
        ensures
            i < n ==> s@[i as int] == ':',
            forall|j: int| 0 <= j < i ==> s@[j] != ':',
        decreases n - i,
    {
        if s.get_char(i) == ':' {
            break;
        }
        i = i + 1;
    }
    if i == n {
        return Err(ParseError::MissingSeparator);
    }
    assert(is_first_colon(s@, i as int));
    assert forall|k: int| is_first_colon(s@, k) implies k == i by {
        if k < i {
            assert(s@[k] != ':');
        } else if k > i {
            assert(s@[i as int] != ':');
        }
    }
    let path = s.substring_char(0, i).to_owned();
    match parse_hex(s.substring_char(i + 1, n)) {
        Ok(v) => Ok((path, v)),
        Err(e) => Err(e),
    }
}

/// A length or an offset, read from text by `parse_hex`.
#[derive(Debug, Clone, Copy, PartialEq, Eq, Structural)]
pub struct HexOpt {
    pub val: u64,
}

impl std::str::FromStr for HexOpt {
    type Err = ParseError;

    fn from_str(s: &str) -> (r: Result<HexOpt, ParseError>)
        ensures
            r matches Ok(h) ==> parse_number(s@) == Ok::<u64, ParseError>(h.val),
            r matches Err(e) ==> parse_number(s@) == Err::<u64, ParseError>(e),
    {
        match parse_hex(s) {
            Ok(val) => Ok(HexOpt { val }),
            Err(e) => Err(e),
        }
    }
}

} // verus!
