//! Parsing of type and value literals from text: a tokenizer for each of
//! the two little grammars, a token-stream parser, and exact decimal and
//! hexadecimal number parsing.

use vstd::prelude::*;

verus! {

/// What went wrong while tokenizing or parsing.
#[derive(Clone, Copy, Debug, PartialEq, Eq, Structural)]
pub enum ParseError {
    /// The token stream ended where more input was expected.
    UnexpectedEndOfTokens,
    /// A token other than the expected one was found.
    UnexpectedToken,
    /// A number was malformed or out of range.
    InvalidNumber,
    /// An address was malformed or out of range.
    InvalidAddress,
    /// A character no token starts with.
    InvalidCharacter,
    /// A byte or hexadecimal string literal was not closed or malformed.
    InvalidStringLiteral,
    /// The same field name was bound twice in a struct value.
    DuplicateFieldBinding,
    /// Input remained after a complete parse.
    TrailingTokens,
}

/// The tokens of the type and value grammars.
#[derive(Clone, Copy, Debug, PartialEq, Eq, Structural)]
pub enum Token {
    Ident,
    /// A number in type position: the numeric root of an address.
    AddressIdent,
    Number,
    /// A number with a `u8`, `u64` or `u128` suffix.
    NumberTyped,
    True,
    False,
    ByteString,
    HexString,
    AtSign,
    LBracket,
    RBracket,
    LBrace,
    RBrace,
    Colon,
    ColonColon,
    Lt,
    Gt,
    Comma,
    Whitespace,
}

/// The base a number literal is written in.
#[derive(Clone, Copy, Debug, PartialEq, Eq, Structural)]
pub enum NumberFormat {
    Decimal,
    Hex,
}

impl NumberFormat {
    /// The numeric base of the format.
    pub fn base(self) -> (r: u32)
        ensures
            r == spec_base(self),
    {
        match self {
            NumberFormat::Decimal => 10,
            NumberFormat::Hex => 16,
        }
    }
}

/// The numeric base of a format.
pub open spec fn spec_base(f: NumberFormat) -> int {
    match f {
        NumberFormat::Decimal => 10,
        NumberFormat::Hex => 16,
    }
}

/// Whether the byte is a digit of the given base.
pub open spec fn is_digit_of(c: u8, base: int) -> bool {
    if base == 16 {
        (48 <= c <= 57) || (97 <= c <= 102) || (65 <= c <= 70)
    } else {
        48 <= c <= 57
    }
}

/// The numeric value of a digit byte.
pub open spec fn digit_value(c: u8) -> int {
    if 48 <= c <= 57 {
        c - 48
    } else if 97 <= c <= 102 {
        c - 97 + 10
    } else if 65 <= c <= 70 {
        c - 65 + 10
    } else {
        0
    }
}

/// The value of a digit string read in the given base.
pub open spec fn digits_value(s: Seq<u8>, base: int) -> int
    decreases s.len(),
{
    if s.len() == 0 {
        0
    } else {
        digits_value(s.drop_last(), base) * base + digit_value(s.last())
    }
}

/// Every byte of `s` in `[from, to)` is a digit of the base.
pub open spec fn all_digits(s: Seq<u8>, base: int) -> bool {
    forall|i: int| 0 <= i < s.len() ==> is_digit_of(#[trigger] s[i], base)
}

/// The value of a digit string never decreases as digits are appended.
proof fn lemma_digits_prefix_le(s: Seq<u8>, k: int, base: int)
    requires
        0 <= k <= s.len(),
        base == 10 || base == 16,
    ensures
        digits_value(s.subrange(0, k), base) <= digits_value(s, base),
    decreases s.len() - k,
{
    if k < s.len() {
        lemma_digits_prefix_le(s, k + 1, base);
        let p = s.subrange(0, k);
        let q = s.subrange(0, k + 1);
        assert(q.drop_last() =~= p);
        assert(q.last() == s[k]);
        assert(digits_value(q, base) == digits_value(p, base) * base + digit_value(s[k]));
        assert(digit_value(s[k]) >= 0);
        lemma_digits_nonneg(p, base);
        assert(digits_value(p, base) * base >= digits_value(p, base)) by (nonlinear_arith)
            requires
                digits_value(p, base) >= 0,
                base >= 1,
        {}
    } else {
        assert(s.subrange(0, k) =~= s);
    }
}

/// The value of a digit string is never negative.
proof fn lemma_digits_nonneg(s: Seq<u8>, base: int)
    requires
        base >= 1,
    ensures
        digits_value(s, base) >= 0,
    decreases s.len(),
{
    if s.len() > 0 {
        lemma_digits_nonneg(s.drop_last(), base);
        assert(digits_value(s.drop_last(), base) * base >= 0) by (nonlinear_arith)
            requires
                digits_value(s.drop_last(), base) >= 0,
                base >= 1,
        {}
        assert(digit_value(s.last()) >= 0);
    }
}

/// The numeric value of a digit byte.
fn digit_of(c: u8, base: u32) -> (r: Option<u8>)
    requires
        base == 10 || base == 16,
    ensures
        r is Some <==> is_digit_of(c, base as int),
        r is Some ==> r->0 == digit_value(c),
{
    if 48 <= c && c <= 57 {
        Some(c - 48)
    } else if base == 16 && 97 <= c && c <= 102 {
        Some(c - 97 + 10)
    } else if base == 16 && 65 <= c && c <= 70 {
        Some(c - 65 + 10)
    } else {
        None
    }
}

/// Read an unsigned number from digit bytes in the given base: the exact
/// value when every byte is a digit, the string is non-empty, and the
/// value fits; nothing otherwise.
pub fn parse_digits_u128(s: &Vec<u8>, from: usize, format: NumberFormat) -> (r: Option<u128>)
    requires
        from <= s@.len(),
    ensures
        r is Some <==> (from < s@.len() && all_digits(
            s@.subrange(from as int, s@.len() as int),
            spec_base(format),
        ) && digits_value(s@.subrange(from as int, s@.len() as int), spec_base(format))
            <= u128::MAX),
        r is Some ==> r->0 == digits_value(
            s@.subrange(from as int, s@.len() as int),
            spec_base(format),
        ),
{
    let base = format.base();
    let ghost gbase = spec_base(format);
    let ghost whole = s@.subrange(from as int, s@.len() as int);
    let n = s.len();
    if from >= n {
        return None;
    }
    let mut acc: u128 = 0;
    let mut i: usize = from;
    while i < n
        invariant
            from <= i <= n,
            n == s@.len(),
            from < n,
            base == spec_base(format),
            gbase == spec_base(format),
            gbase == 10 || gbase == 16,
            whole == s@.subrange(from as int, s@.len() as int),
            all_digits(s@.subrange(from as int, i as int), gbase),
            acc == digits_value(s@.subrange(from as int, i as int), gbase),
        decreases n - i,
    {
        let c = s[i];
        let ghost pre = s@.subrange(from as int, i as int);
        let ghost cur = s@.subrange(from as int, i as int + 1);
        proof {
            assert(cur.drop_last() =~= pre);
            assert(cur.last() == s@[i as int]);
        }
        match digit_of(c, base) {
            None => {
                proof {
                    assert(!is_digit_of(whole[i - from], gbase));
                    assert(!all_digits(whole, gbase));
                }
                return None;
            },
            Some(d) => {
                let limit = (u128::MAX - (d as u128)) / (base as u128);
                if acc > limit {
                    proof {
                        let av = acc as int;
                        let dv = d as int;
                        assert(digits_value(cur, gbase) == av * gbase + dv);
                        assert(av * gbase + dv > u128::MAX) by (nonlinear_arith)
                            requires
                                av > (u128::MAX as int - dv) / gbase,
                                gbase == 10 || gbase == 16,
                                0 <= dv < gbase,
                                av >= 0,
                        {}
                        lemma_digits_prefix_le(whole, i - from + 1, gbase);
                        assert(whole.subrange(0, i - from + 1) =~= cur);
                        assert(digits_value(whole, gbase) > u128::MAX);
                    }
                    return None;
                }
                proof {
                    let av = acc as int;
                    let dv = d as int;
                    assert(av * gbase + dv <= u128::MAX) by (nonlinear_arith)
                        requires
                            av <= (u128::MAX as int - dv) / gbase,
                            gbase == 10 || gbase == 16,
                            0 <= dv < gbase,
                            av >= 0,
                    {}
                }
                acc = acc * (base as u128) + (d as u128);
            },
        }
        i += 1;
    }
    proof {
        assert(s@.subrange(from as int, n as int) =~= whole);
    }
    Some(acc)
}

/// Where the digits of a number literal start, and its base: a `0x`
/// prefix selects hexadecimal, anything else is decimal.
pub fn determine_num_text_and_base(s: &Vec<u8>) -> (r: (usize, NumberFormat))
    ensures
        r.1 == (if s@.len() >= 2 && s@[0] == 48 && s@[1] == 120 {
            NumberFormat::Hex
        } else {
            NumberFormat::Decimal
        }),
        r.0 == (if s@.len() >= 2 && s@[0] == 48 && s@[1] == 120 {
            2int
        } else {
            0int
        }),
        r.0 <= s@.len(),
{
    if s.len() >= 2 && s[0] == 48 && s[1] == 120 {
        (2, NumberFormat::Hex)
    } else {
        (0, NumberFormat::Decimal)
    }
}

/// Parse a `u8` from a decimal or `0x` hexadecimal literal.
pub fn parse_u8(s: &Vec<u8>) -> (r: Result<(u8, NumberFormat), ParseError>)
    ensures
        ({
            let start = if s@.len() >= 2 && s@[0] == 48 && s@[1] == 120 {
                2int
            } else {
                0int
            };
            let fmt = if start == 2 {
                NumberFormat::Hex
            } else {
                NumberFormat::Decimal
            };
            let digits = s@.subrange(start, s@.len() as int);
            if digits.len() > 0 && all_digits(digits, spec_base(fmt)) && digits_value(
                digits,
                spec_base(fmt),
            ) <= u8::MAX {
                r == Ok::<(u8, NumberFormat), ParseError>(
                    ((digits_value(digits, spec_base(fmt)) as u8), fmt),
                )
            } else {
                r == Err::<(u8, NumberFormat), ParseError>(ParseError::InvalidNumber)
            }
        }),
{
    let (start, fmt) = determine_num_text_and_base(s);
    match parse_digits_u128(s, start, fmt) {
        Some(v) if v <= u8::MAX as u128 => Ok((v as u8, fmt)),
        _ => Err(ParseError::InvalidNumber),
    }
}

/// Parse a `u64` from a decimal or `0x` hexadecimal literal.
pub fn parse_u64(s: &Vec<u8>) -> (r: Result<(u64, NumberFormat), ParseError>)
    ensures
        ({
            let start = if s@.len() >= 2 && s@[0] == 48 && s@[1] == 120 {
                2int
            } else {
                0int
            };
            let fmt = if start == 2 {
                NumberFormat::Hex
            } else {
                NumberFormat::Decimal
            };
            let digits = s@.subrange(start, s@.len() as int);
            if digits.len() > 0 && all_digits(digits, spec_base(fmt)) && digits_value(
                digits,
                spec_base(fmt),
            ) <= u64::MAX {
                r == Ok::<(u64, NumberFormat), ParseError>(
                    ((digits_value(digits, spec_base(fmt)) as u64), fmt),
                )
            } else {
                r == Err::<(u64, NumberFormat), ParseError>(ParseError::InvalidNumber)
            }
        }),
{
    let (start, fmt) = determine_num_text_and_base(s);
    match parse_digits_u128(s, start, fmt) {
        Some(v) if v <= u64::MAX as u128 => Ok((v as u64, fmt)),
        _ => Err(ParseError::InvalidNumber),
    }
}

/// Parse a `u128` from a decimal or `0x` hexadecimal literal.
pub fn parse_u128(s: &Vec<u8>) -> (r: Result<(u128, NumberFormat), ParseError>)
    ensures
        ({
            let start = if s@.len() >= 2 && s@[0] == 48 && s@[1] == 120 {
                2int
            } else {
                0int
            };
            let fmt = if start == 2 {
                NumberFormat::Hex
            } else {
                NumberFormat::Decimal
            };
            let digits = s@.subrange(start, s@.len() as int);
            if digits.len() > 0 && all_digits(digits, spec_base(fmt)) && digits_value(
                digits,
                spec_base(fmt),
            ) <= u128::MAX {
                r == Ok::<(u128, NumberFormat), ParseError>(
                    ((digits_value(digits, spec_base(fmt)) as u128), fmt),
                )
            } else {
                r == Err::<(u128, NumberFormat), ParseError>(ParseError::InvalidNumber)
            }
        }),
{
    let (start, fmt) = determine_num_text_and_base(s);
    match parse_digits_u128(s, start, fmt) {
        Some(v) => Ok((v, fmt)),
        None => Err(ParseError::InvalidNumber),
    }
}

/// Parse the sixteen-byte numeric root of an address: exactly the numbers
/// a sixteen-byte big-endian encoding can hold, so a value of up to
/// `u128::MAX`, in decimal or `0x` hexadecimal.
pub fn parse_address_number(s: &Vec<u8>) -> (r: Option<(u128, NumberFormat)>)
    ensures
        ({
            let start = if s@.len() >= 2 && s@[0] == 48 && s@[1] == 120 {
                2int
            } else {
                0int
            };
            let fmt = if start == 2 {
                NumberFormat::Hex
            } else {
                NumberFormat::Decimal
            };
            let digits = s@.subrange(start, s@.len() as int);
            if digits.len() > 0 && all_digits(digits, spec_base(fmt)) && digits_value(
                digits,
                spec_base(fmt),
            ) <= u128::MAX {
                r == Some((digits_value(digits, spec_base(fmt)) as u128, fmt))
            } else {
                r is None
            }
        }),
{
    let (start, fmt) = determine_num_text_and_base(s);
    match parse_digits_u128(s, start, fmt) {
        Some(v) => Some((v, fmt)),
        None => None,
    }
}

/// A numeric address root: a sixteen-byte value and the base it was
/// written in.
#[derive(Clone, Copy, Debug, PartialEq, Eq, Structural)]
pub struct NumericalAddress {
    pub value: u128,
    pub format: NumberFormat,
}

impl NumericalAddress {
    /// Parse an address root from a decimal or hexadecimal literal.
    pub fn parse_str(s: &Vec<u8>) -> (r: Result<NumericalAddress, ParseError>) {
        match parse_address_number(s) {
            Some((value, format)) => Ok(NumericalAddress { value, format }),
            None => Err(ParseError::InvalidAddress),
        }
    }
}

/// An address: numeric, or a name to be resolved later.
#[derive(Debug)]
pub enum ParsedAddress {
    Numerical(NumericalAddress),
    Named(Vec<u8>),
}

/// A parsed type expression.
#[derive(Debug)]
pub enum ParsedType {
    U8,
    U64,
    U128,
    Bool,
    Address,
    Signer,
    Vector(Box<ParsedType>),
    Struct(ParsedStructType),
}

/// A parsed struct type: address, module, name and type arguments.
#[derive(Debug)]
pub struct ParsedStructType {
    pub address: ParsedAddress,
    pub module: Vec<u8>,
    pub name: Vec<u8>,
    pub type_args: Vec<ParsedType>,
}

/// A parsed value literal.
#[derive(Debug)]
pub enum ParsedValue {
    /// A bare number whose width is inferred from context.
    InferredNum(u128),
    U8(u8),
    U64(u64),
    U128(u128),
    Bool(bool),
    Vector(Vec<ParsedValue>),
    Address(ParsedAddress),
    /// A struct value: address, module, struct name, and the field
    /// bindings in source order, each name bound once.
    Struct(ParsedAddress, Vec<u8>, Vec<u8>, Vec<(Vec<u8>, ParsedValue)>),
}

/// Bytes of one decoded pair of hexadecimal digits per position.
pub open spec fn hex_decode_spec(s: Seq<u8>) -> Seq<u8> {
    Seq::new(
        (s.len() / 2) as nat,
        |i: int| (digit_value(s[2 * i]) * 16 + digit_value(s[2 * i + 1])) as u8,
    )
}

/// Relies on hex::decode: each pair of hexadecimal digits, of either
/// case, becomes one byte, high digit first.
#[verifier::external_body]
fn hex_decode(s: &Vec<u8>) -> (r: Vec<u8>)
    requires
        s@.len() % 2 == 0,
        forall|i: int| 0 <= i < s@.len() ==> is_digit_of(#[trigger] s@[i], 16),
    ensures
        r@ == hex_decode_spec(s@),
{
    hex::decode(s.as_slice()).unwrap()
}

/// Copy a byte vector.
fn copy_bytes(v: &Vec<u8>) -> (r: Vec<u8>)
    ensures
        r@ == v@,
{
    let n = v.len();
    let mut out: Vec<u8> = Vec::new();
    let mut i: usize = 0;
    while i < n
        invariant
            n == v@.len(),
            0 <= i <= n,
            out@ =~= v@.subrange(0, i as int),
        decreases n - i,
    {
        out.push(v[i]);
        i += 1;
    }
    proof {
        assert(out@ =~= v@);
    }
    out
}

/// Copy the bytes of `v` in `[from, to)`.
fn sub_bytes(v: &Vec<u8>, from: usize, to: usize) -> (r: Vec<u8>)
    requires
        from <= to <= v@.len(),
    ensures
        r@ == v@.subrange(from as int, to as int),
{
    let mut out: Vec<u8> = Vec::new();
    let mut i: usize = from;
    while i < to
        invariant
            from <= i <= to,
            to <= v@.len(),
            out@ =~= v@.subrange(from as int, i as int),
        decreases to - i,
    {
        out.push(v[i]);
        i += 1;
    }
    proof {
        assert(out@ =~= v@.subrange(from as int, to as int));
    }
    out
}

/// Whether the byte starts an identifier: a letter or an underscore.
fn is_ident_start(c: u8) -> (r: bool) {
    (97 <= c && c <= 122) || (65 <= c && c <= 90) || c == 95
}

/// Whether the byte continues an identifier.
fn is_ident_cont(c: u8) -> (r: bool) {
    (97 <= c && c <= 122) || (65 <= c && c <= 90) || (48 <= c && c <= 57) || c == 95
}

/// Whether the byte is a decimal digit.
fn is_dec_digit(c: u8) -> (r: bool) {
    48 <= c && c <= 57
}

/// Whether the byte is a hexadecimal digit of either case.
fn is_hex_digit_byte(c: u8) -> (r: bool)
    ensures
        r == is_digit_of(c, 16),
{
    (48 <= c && c <= 57) || (97 <= c && c <= 102) || (65 <= c && c <= 70)
}

/// Whether the byte is whitespace.
fn is_ws(c: u8) -> (r: bool) {
    c == 32 || c == 9 || c == 10 || c == 13
}

/// Tokenize a type expression: identifiers, numeric address roots, `::`,
/// angle brackets and commas.
pub fn tokenize_type(s: &Vec<u8>) -> (r: Result<Vec<(Token, Vec<u8>)>, ParseError>) {
    let n = s.len();
    let mut out: Vec<(Token, Vec<u8>)> = Vec::new();
    let mut i: usize = 0;
    while i < n
        invariant
            n == s@.len(),
            0 <= i <= n,
        decreases n - i,
    {
        let c = s[i];
        if is_ws(c) {
            let start = i;
            i += 1;
            while i < n && is_ws(s[i])
                invariant
                    n == s@.len(),
                    start < i <= n,
                decreases n - i,
            {
                i += 1;
            }
            out.push((Token::Whitespace, sub_bytes(s, start, i)));
        } else if c == 58 {
            if i + 1 < n && s[i + 1] == 58 {
                out.push((Token::ColonColon, sub_bytes(s, i, i + 2)));
                i += 2;
            } else {
                return Err(ParseError::InvalidCharacter);
            }
        } else if c == 60 {
            out.push((Token::Lt, sub_bytes(s, i, i + 1)));
            i += 1;
        } else if c == 62 {
            out.push((Token::Gt, sub_bytes(s, i, i + 1)));
            i += 1;
        } else if c == 44 {
            out.push((Token::Comma, sub_bytes(s, i, i + 1)));
            i += 1;
        } else if is_ident_start(c) {
            let start = i;
            i += 1;
            while i < n && is_ident_cont(s[i])
                invariant
                    n == s@.len(),
                    start < i <= n,
                decreases n - i,
            {
                i += 1;
            }
            out.push((Token::Ident, sub_bytes(s, start, i)));
        } else if is_dec_digit(c) {
            let start = i;
            i += 1;
            if i < n && s[i] == 120 && c == 48 {
                i += 1;
                while i < n && is_hex_digit_byte(s[i])
                    invariant
                        n == s@.len(),
                        start < i <= n,
                    decreases n - i,
                {
                    i += 1;
                }
            } else {
                while i < n && is_dec_digit(s[i])
                    invariant
                        n == s@.len(),
                        start < i <= n,
                    decreases n - i,
                {
                    i += 1;
                }
            }
            out.push((Token::AddressIdent, sub_bytes(s, start, i)));
        } else {
            return Err(ParseError::InvalidCharacter);
        }
    }
    Ok(out)
}

/// Tokenize a value literal: everything the type grammar has, plus
/// numbers with width suffixes, booleans, byte and hexadecimal strings,
/// `@`, brackets, braces and single colons.
pub fn tokenize_value(s: &Vec<u8>) -> (r: Result<Vec<(Token, Vec<u8>)>, ParseError>) {
    let n = s.len();
    let mut out: Vec<(Token, Vec<u8>)> = Vec::new();
    let mut i: usize = 0;
    while i < n
        invariant
            n == s@.len(),
            0 <= i <= n,
        decreases n - i,
    {
        let c = s[i];
        if is_ws(c) {
            let start = i;
            i += 1;
            while i < n && is_ws(s[i])
                invariant
                    n == s@.len(),
                    start < i <= n,
                decreases n - i,
            {
                i += 1;
            }
            out.push((Token::Whitespace, sub_bytes(s, start, i)));
        } else if c == 58 {
            if i + 1 < n && s[i + 1] == 58 {
                out.push((Token::ColonColon, sub_bytes(s, i, i + 2)));
                i += 2;
            } else {
                out.push((Token::Colon, sub_bytes(s, i, i + 1)));
                i += 1;
            }
        } else if c == 64 {
            out.push((Token::AtSign, sub_bytes(s, i, i + 1)));
            i += 1;
        } else if c == 91 {
            out.push((Token::LBracket, sub_bytes(s, i, i + 1)));
            i += 1;
        } else if c == 93 {
            out.push((Token::RBracket, sub_bytes(s, i, i + 1)));
            i += 1;
        } else if c == 123 {
            out.push((Token::LBrace, sub_bytes(s, i, i + 1)));
            i += 1;
        } else if c == 125 {
            out.push((Token::RBrace, sub_bytes(s, i, i + 1)));
            i += 1;
        } else if c == 60 {
            out.push((Token::Lt, sub_bytes(s, i, i + 1)));
            i += 1;
        } else if c == 62 {
            out.push((Token::Gt, sub_bytes(s, i, i + 1)));
            i += 1;
        } else if c == 44 {
            out.push((Token::Comma, sub_bytes(s, i, i + 1)));
            i += 1;
        } else if (c == 98 || c == 120) && i + 1 < n && s[i + 1] == 34 {
            // A byte string b"..." or hexadecimal string x"...": the token
            // content is the text between the quotes.
            let start = i + 2;
            let mut j = start;
            while j < n && s[j] != 34
                invariant
                    n == s@.len(),
                    start <= j <= n,
                decreases n - j,
            {
                j += 1;
            }
            if j >= n {
                return Err(ParseError::InvalidStringLiteral);
            }
            let contents = sub_bytes(s, start, j);
            if c == 120 {
                if contents.len() % 2 != 0 {
                    return Err(ParseError::InvalidStringLiteral);
                }
                let m = contents.len();
                let mut k: usize = 0;
                while k < m
                    invariant
                        m == contents@.len(),
                        0 <= k <= m,
                    decreases m - k,
                {
                    if !is_hex_digit_byte(contents[k]) {
                        return Err(ParseError::InvalidStringLiteral);
                    }
                    k += 1;
                }
                out.push((Token::HexString, contents));
            } else {
                out.push((Token::ByteString, contents));
            }
            i = j + 1;
        } else if is_ident_start(c) {
            let start = i;
            i += 1;
            while i < n && is_ident_cont(s[i])
                invariant
                    n == s@.len(),
                    start < i <= n,
                decreases n - i,
            {
                i += 1;
            }
            let word = sub_bytes(s, start, i);
            if word.len() == 4 && word[0] == 116 && word[1] == 114 && word[2] == 117 && word[3]
                == 101 {
                out.push((Token::True, word));
            } else if word.len() == 5 && word[0] == 102 && word[1] == 97 && word[2] == 108
                && word[3] == 115 && word[4] == 101 {
                out.push((Token::False, word));
            } else {
                out.push((Token::Ident, word));
            }
        } else if is_dec_digit(c) {
            let start = i;
            i += 1;
            if i < n && s[i] == 120 && c == 48 {
                i += 1;
                while i < n && is_hex_digit_byte(s[i])
                    invariant
                        n == s@.len(),
                        start < i <= n,
                    decreases n - i,
                {
                    i += 1;
                }
            } else {
                while i < n && is_dec_digit(s[i])
                    invariant
                        n == s@.len(),
                        start < i <= n,
                    decreases n - i,
                {
                    i += 1;
                }
            }
            // An optional width suffix turns the number into a typed one.
            let mut typed = false;
            if i < n && s[i] == 117 {
                if n - i > 3 && s[i + 1] == 49 && s[i + 2] == 50 && s[i + 3] == 56 {
                    i += 4;
                    typed = true;
                } else if n - i > 2 && s[i + 1] == 54 && s[i + 2] == 52 {
                    i += 3;
                    typed = true;
                } else if n - i > 1 && s[i + 1] == 56 {
                    i += 2;
                    typed = true;
                }
            }
            if typed {
                out.push((Token::NumberTyped, sub_bytes(s, start, i)));
            } else {
                out.push((Token::Number, sub_bytes(s, start, i)));
            }
        } else {
            return Err(ParseError::InvalidCharacter);
        }
    }
    Ok(out)
}

/// Drop the whitespace tokens.
fn filter_whitespace(tokens: Vec<(Token, Vec<u8>)>) -> (r: Vec<(Token, Vec<u8>)>) {
    let n = tokens.len();
    let mut out: Vec<(Token, Vec<u8>)> = Vec::new();
    let mut i: usize = 0;
    while i < n
        invariant
            n == tokens@.len(),
            0 <= i <= n,
        decreases n - i,
    {
        let keep = match tokens[i].0 {
            Token::Whitespace => false,
            _ => true,
        };
        if keep {
            let bytes = copy_bytes(&tokens[i].1);
            let tok = tokens[i].0;
            out.push((tok, bytes));
        }
        i += 1;
    }
    out
}

/// A parser over a token stream.
#[derive(Debug)]
pub struct Parser {
    pub tokens: Vec<(Token, Vec<u8>)>,
    pub pos: usize,
}

impl Parser {
    /// The position never passes the end of the stream.
    pub open spec fn inv(&self) -> bool {
        self.pos <= self.tokens@.len()
    }

    /// A parser at the start of the given stream.
    pub fn new(tokens: Vec<(Token, Vec<u8>)>) -> (r: Parser)
        ensures
            r.inv(),
            r.tokens@ == tokens@,
            r.pos == 0,
    {
        Parser { tokens, pos: 0 }
    }

    /// Take the next token, or fail exactly at the end of the stream: the
    /// head token and its text are returned and the parser advances past
    /// them.
    pub fn next(&mut self) -> (r: Result<(Token, Vec<u8>), ParseError>)
        requires
            old(self).inv(),
        ensures
            final(self).inv(),
            final(self).tokens@ == old(self).tokens@,
            (r is Err) <==> old(self).pos >= old(self).tokens@.len(),
            r is Ok ==> old(self).pos < old(self).tokens@.len() && final(self).pos == old(
                self,
            ).pos + 1 && r->Ok_0.0 == old(self).tokens@[old(self).pos as int].0 && (r->Ok_0.1)@
                == (old(self).tokens@[old(self).pos as int].1)@,
            r is Err ==> *final(self) == *old(self) && r == Err::<
                (Token, Vec<u8>),
                ParseError,
            >(ParseError::UnexpectedEndOfTokens),
    {
        if self.pos < self.tokens.len() {
            let tok = self.tokens[self.pos].0;
            let bytes = copy_bytes(&self.tokens[self.pos].1);
            self.pos = self.pos + 1;
            Ok((tok, bytes))
        } else {
            Err(ParseError::UnexpectedEndOfTokens)
        }
    }

    /// The next token and its text, without advancing.
    pub fn peek(&self) -> (r: Option<(Token, Vec<u8>)>)
        requires
            self.inv(),
        ensures
            r is Some <==> self.pos < self.tokens@.len(),
            r is Some ==> (r->0).0 == self.tokens@[self.pos as int].0,
    {
        if self.pos < self.tokens.len() {
            let tok = self.tokens[self.pos].0;
            let bytes = copy_bytes(&self.tokens[self.pos].1);
            Some((tok, bytes))
        } else {
            None
        }
    }

    /// The next token, without advancing.
    pub fn peek_tok(&self) -> (r: Option<Token>)
        requires
            self.inv(),
        ensures
            r is Some <==> self.pos < self.tokens@.len(),
            r is Some ==> r->0 == self.tokens@[self.pos as int].0,
    {
        if self.pos < self.tokens.len() {
            Some(self.tokens[self.pos].0)
        } else {
            None
        }
    }

    /// Take the next token and require it to be `tok`, yielding its text:
    /// this succeeds exactly when the stream's head is a `tok` token.
    pub fn consume(&mut self, tok: Token) -> (r: Result<Vec<u8>, ParseError>)
        requires
            old(self).inv(),
        ensures
            final(self).inv(),
            final(self).tokens@ == old(self).tokens@,
            final(self).pos >= old(self).pos,
            (r is Ok) <==> (old(self).pos < old(self).tokens@.len() && old(self).tokens@[old(
                self,
            ).pos as int].0 == tok),
            r matches Ok(text) ==> final(self).pos == old(self).pos + 1 && text@ == (old(
                self,
            ).tokens@[old(self).pos as int].1)@,
            r is Err ==> (old(self).pos >= old(self).tokens@.len() && r == Err::<
                Vec<u8>,
                ParseError,
            >(ParseError::UnexpectedEndOfTokens) && *final(self) == *old(self)) || (old(
                self,
            ).pos < old(self).tokens@.len() && old(self).tokens@[old(self).pos as int].0 != tok
                && r == Err::<Vec<u8>, ParseError>(ParseError::UnexpectedToken)
                && final(self).pos == old(self).pos + 1),
    {
        let (t, contents) = match self.next() {
            Ok(x) => x,
            Err(e) => {
                return Err(e);
            },
        };
        if t == tok {
            Ok(contents)
        } else {
            Err(ParseError::UnexpectedToken)
        }
    }

    /// Parse one type expression.
    pub fn parse_type(&mut self) -> (r: Result<ParsedType, ParseError>)
        requires
            old(self).inv(),
        ensures
            final(self).inv(),
            final(self).tokens@ == old(self).tokens@,
            final(self).pos >= old(self).pos,
            r is Ok ==> final(self).pos > old(self).pos,
        decreases old(self).tokens@.len() - old(self).pos, 0int,
    {
        let (tok, contents) = match self.next() {
            Ok(x) => x,
            Err(e) => {
                return Err(e);
            },
        };
        let c = &contents;
        match tok {
            Token::Ident => {
                if c.len() == 2 && c[0] == 117 && c[1] == 56 {
                    Ok(ParsedType::U8)
                } else if c.len() == 3 && c[0] == 117 && c[1] == 54 && c[2] == 52 {
                    Ok(ParsedType::U64)
                } else if c.len() == 4 && c[0] == 117 && c[1] == 49 && c[2] == 50 && c[3] == 56 {
                    Ok(ParsedType::U128)
                } else if c.len() == 4 && c[0] == 98 && c[1] == 111 && c[2] == 111 && c[3] == 108 {
                    Ok(ParsedType::Bool)
                } else if c.len() == 7 && c[0] == 97 && c[1] == 100 && c[2] == 100 && c[3] == 114
                    && c[4] == 101 && c[5] == 115 && c[6] == 115 {
                    Ok(ParsedType::Address)
                } else if c.len() == 6 && c[0] == 115 && c[1] == 105 && c[2] == 103 && c[3] == 110
                    && c[4] == 101 && c[5] == 114 {
                    Ok(ParsedType::Signer)
                } else if c.len() == 6 && c[0] == 118 && c[1] == 101 && c[2] == 99 && c[3] == 116
                    && c[4] == 111 && c[5] == 114 {
                    match self.consume(Token::Lt) {
                        Ok(_) => {},
                        Err(e) => {
                            return Err(e);
                        },
                    }
                    let ty = match self.parse_type() {
                        Ok(t) => t,
                        Err(e) => {
                            return Err(e);
                        },
                    };
                    match self.consume(Token::Gt) {
                        Ok(_) => {},
                        Err(e) => {
                            return Err(e);
                        },
                    }
                    Ok(ParsedType::Vector(Box::new(ty)))
                } else {
                    self.parse_struct_tail(ParsedAddress::Named(contents))
                }
            },
            Token::AddressIdent => {
                let addr = match NumericalAddress::parse_str(&contents) {
                    Ok(a) => a,
                    Err(e) => {
                        return Err(e);
                    },
                };
                self.parse_struct_tail(ParsedAddress::Numerical(addr))
            },
            _ => Err(ParseError::UnexpectedToken),
        }
    }

    /// Parse the rest of a struct type after its address: the module and
    /// struct names and optional type arguments.
    fn parse_struct_tail(&mut self, address: ParsedAddress) -> (r: Result<ParsedType, ParseError>)
        requires
            old(self).inv(),
        ensures
            final(self).inv(),
            final(self).tokens@ == old(self).tokens@,
            final(self).pos >= old(self).pos,
        decreases old(self).tokens@.len() - old(self).pos, 1int,
    {
        match self.consume(Token::ColonColon) {
            Ok(_) => {},
            Err(e) => {
                return Err(e);
            },
        }
        let module = match self.consume(Token::Ident) {
            Ok(m) => m,
            Err(e) => {
                return Err(e);
            },
        };
        match self.consume(Token::ColonColon) {
            Ok(_) => {},
            Err(e) => {
                return Err(e);
            },
        }
        let name = match self.consume(Token::Ident) {
            Ok(m) => m,
            Err(e) => {
                return Err(e);
            },
        };
        let type_args = match self.peek_tok() {
            Some(Token::Lt) => {
                match self.next() {
                    Ok(_) => {},
                    Err(e) => {
                        return Err(e);
                    },
                }
                let args = match self.parse_list(Token::Comma, Token::Gt) {
                    Ok(a) => a,
                    Err(e) => {
                        return Err(e);
                    },
                };
                match self.consume(Token::Gt) {
                    Ok(_) => {},
                    Err(e) => {
                        return Err(e);
                    },
                }
                args
            },
            _ => Vec::new(),
        };
        Ok(ParsedType::Struct(ParsedStructType { address, module, name, type_args }))
    }

    /// Parse a possibly empty list of types separated by `delim` and
    /// closed by `end_token`; on success the stream stands exactly at the
    /// end token (or at its end), which is never consumed, and an empty
    /// list leaves the parser untouched. A trailing separator is allowed.
    pub fn parse_list(&mut self, delim: Token, end_token: Token) -> (r: Result<
        Vec<ParsedType>,
        ParseError,
    >)
        requires
            old(self).inv(),
        ensures
            final(self).inv(),
            final(self).tokens@ == old(self).tokens@,
            final(self).pos >= old(self).pos,
            r is Ok ==> final(self).pos >= final(self).tokens@.len()
                || final(self).tokens@[final(self).pos as int].0 == end_token,
            old(self).pos >= old(self).tokens@.len()
                || old(self).tokens@[old(self).pos as int].0 == end_token ==> (r matches Ok(v)
                && v@.len() == 0) && *final(self) == *old(self),
        decreases old(self).tokens@.len() - old(self).pos, 2int,
    {
        let mut v: Vec<ParsedType> = Vec::new();
        loop
            invariant
                self.inv(),
                self.tokens@ == old(self).tokens@,
                self.pos >= old(self).pos,
                old(self).pos >= old(self).tokens@.len() || old(self).tokens@[old(
                    self,
                ).pos as int].0 == end_token ==> *self == *old(self) && v@.len() == 0,
            decreases self.tokens@.len() - self.pos,
        {
            let at_end = match self.peek_tok() {
                None => true,
                Some(t) => t == end_token,
            };
            if at_end {
                return Ok(v);
            }
            let item = match self.parse_type() {
                Ok(t) => t,
                Err(e) => {
                    return Err(e);
                },
            };
            v.push(item);
            let at_end2 = match self.peek_tok() {
                None => true,
                Some(t) => t == end_token,
            };
            if at_end2 {
                return Ok(v);
            }
            match self.consume(delim) {
                Ok(_) => {},
                Err(e) => {
                    return Err(e);
                },
            }
        }
    }

    /// Parse one address, numeric or named.
    pub fn parse_address(&mut self) -> (r: Result<ParsedAddress, ParseError>)
        requires
            old(self).inv(),
        ensures
            final(self).inv(),
            final(self).tokens@ == old(self).tokens@,
            final(self).pos >= old(self).pos,
    {
        let (tok, contents) = match self.next() {
            Ok(x) => x,
            Err(e) => {
                return Err(e);
            },
        };
        parse_address_impl(tok, contents)
    }

    /// Parse one value literal.
    pub fn parse_value(&mut self) -> (r: Result<ParsedValue, ParseError>)
        requires
            old(self).inv(),
        ensures
            final(self).inv(),
            final(self).tokens@ == old(self).tokens@,
            final(self).pos >= old(self).pos,
            r is Ok ==> final(self).pos > old(self).pos,
        decreases old(self).tokens@.len() - old(self).pos, 0int,
    {
        let (tok, contents) = match self.next() {
            Ok(x) => x,
            Err(e) => {
                return Err(e);
            },
        };
        match tok {
            Token::Number => {
                let followed_by_colons = match self.peek_tok() {
                    Some(Token::ColonColon) => true,
                    _ => false,
                };
                if !followed_by_colons {
                    let (u, _) = match parse_u128(&contents) {
                        Ok(x) => x,
                        Err(e) => {
                            return Err(e);
                        },
                    };
                    Ok(ParsedValue::InferredNum(u))
                } else {
                    let addr = match parse_address_impl(Token::Number, contents) {
                        Ok(a) => a,
                        Err(e) => {
                            return Err(e);
                        },
                    };
                    self.parse_struct_value_tail(addr)
                }
            },
            Token::NumberTyped => {
                let m = contents.len();
                if m >= 4 && contents[m - 4] == 117 && contents[m - 3] == 49 && contents[m - 2]
                    == 50 && contents[m - 1] == 56 {
                    let body = sub_bytes(&contents, 0, m - 4);
                    let (u, _) = match parse_u128(&body) {
                        Ok(x) => x,
                        Err(e) => {
                            return Err(e);
                        },
                    };
                    Ok(ParsedValue::U128(u))
                } else if m >= 3 && contents[m - 3] == 117 && contents[m - 2] == 54 && contents[m
                    - 1] == 52 {
                    let body = sub_bytes(&contents, 0, m - 3);
                    let (u, _) = match parse_u64(&body) {
                        Ok(x) => x,
                        Err(e) => {
                            return Err(e);
                        },
                    };
                    Ok(ParsedValue::U64(u))
                } else if m >= 2 && contents[m - 2] == 117 && contents[m - 1] == 56 {
                    let body = sub_bytes(&contents, 0, m - 2);
                    let (u, _) = match parse_u8(&body) {
                        Ok(x) => x,
                        Err(e) => {
                            return Err(e);
                        },
                    };
                    Ok(ParsedValue::U8(u))
                } else {
                    Err(ParseError::InvalidNumber)
                }
            },
            Token::True => Ok(ParsedValue::Bool(true)),
            Token::False => Ok(ParsedValue::Bool(false)),
            Token::ByteString => {
                let m = contents.len();
                let mut values: Vec<ParsedValue> = Vec::new();
                let mut k: usize = 0;
                while k < m
                    invariant
                        m == contents@.len(),
                        0 <= k <= m,
                        self.inv(),
                        self.tokens@ == old(self).tokens@,
                        self.pos > old(self).pos,
                    decreases m - k,
                {
                    values.push(ParsedValue::U8(contents[k]));
                    k += 1;
                }
                Ok(ParsedValue::Vector(values))
            },
            Token::HexString => {
                let m = contents.len();
                if m % 2 != 0 {
                    return Err(ParseError::InvalidStringLiteral);
                }
                let mut k: usize = 0;
                while k < m
                    invariant
                        m == contents@.len(),
                        0 <= k <= m,
                        self.inv(),
                        self.tokens@ == old(self).tokens@,
                        self.pos > old(self).pos,
                        forall|j: int| 0 <= j < k ==> is_digit_of(#[trigger] contents@[j], 16),
                    decreases m - k,
                {
                    if !is_hex_digit_byte(contents[k]) {
                        return Err(ParseError::InvalidStringLiteral);
                    }
                    k += 1;
                }
                let bytes = hex_decode(&contents);
                let mb = bytes.len();
                let mut values: Vec<ParsedValue> = Vec::new();
                let mut w: usize = 0;
                while w < mb
                    invariant
                        mb == bytes@.len(),
                        0 <= w <= mb,
                        self.inv(),
                        self.tokens@ == old(self).tokens@,
                        self.pos > old(self).pos,
                    decreases mb - w,
                {
                    values.push(ParsedValue::U8(bytes[w]));
                    w += 1;
                }
                Ok(ParsedValue::Vector(values))
            },
            Token::AtSign => {
                let addr = match self.parse_address() {
                    Ok(a) => a,
                    Err(e) => {
                        return Err(e);
                    },
                };
                Ok(ParsedValue::Address(addr))
            },
            Token::Ident => {
                let is_vector_kw = contents.len() == 6 && contents[0] == 118 && contents[1] == 101
                    && contents[2] == 99 && contents[3] == 116 && contents[4] == 111
                    && contents[5] == 114;
                if is_vector_kw {
                    match self.consume(Token::LBracket) {
                        Ok(_) => {},
                        Err(e) => {
                            return Err(e);
                        },
                    }
                    let values = match self.parse_value_list(Token::Comma, Token::RBracket) {
                        Ok(v) => v,
                        Err(e) => {
                            return Err(e);
                        },
                    };
                    match self.consume(Token::RBracket) {
                        Ok(_) => {},
                        Err(e) => {
                            return Err(e);
                        },
                    }
                    Ok(ParsedValue::Vector(values))
                } else {
                    let addr = match parse_address_impl(Token::Ident, contents) {
                        Ok(a) => a,
                        Err(e) => {
                            return Err(e);
                        },
                    };
                    self.parse_struct_value_tail(addr)
                }
            },
            _ => Err(ParseError::UnexpectedToken),
        }
    }

    /// Parse the rest of a struct value after its address: the module and
    /// struct names and the braced field bindings.
    fn parse_struct_value_tail(&mut self, addr: ParsedAddress) -> (r: Result<
        ParsedValue,
        ParseError,
    >)
        requires
            old(self).inv(),
        ensures
            final(self).inv(),
            final(self).tokens@ == old(self).tokens@,
            final(self).pos >= old(self).pos,
        decreases old(self).tokens@.len() - old(self).pos, 1int,
    {
        match self.consume(Token::ColonColon) {
            Ok(_) => {},
            Err(e) => {
                return Err(e);
            },
        }
        let module_name = match self.consume(Token::Ident) {
            Ok(m) => m,
            Err(e) => {
                return Err(e);
            },
        };
        match self.consume(Token::ColonColon) {
            Ok(_) => {},
            Err(e) => {
                return Err(e);
            },
        }
        let struct_name = match self.consume(Token::Ident) {
            Ok(m) => m,
            Err(e) => {
                return Err(e);
            },
        };
        match self.consume(Token::LBrace) {
            Ok(_) => {},
            Err(e) => {
                return Err(e);
            },
        }
        let mut fields: Vec<(Vec<u8>, ParsedValue)> = Vec::new();
        loop
            invariant
                self.inv(),
                self.tokens@ == old(self).tokens@,
                self.pos > old(self).pos,
            decreases self.tokens@.len() - self.pos,
        {
            let at_end = match self.peek_tok() {
                None => true,
                Some(Token::RBrace) => true,
                _ => false,
            };
            if at_end {
                break ;
            }
            let field = match self.consume(Token::Ident) {
                Ok(f) => f,
                Err(e) => {
                    return Err(e);
                },
            };
            match self.consume(Token::Colon) {
                Ok(_) => {},
                Err(e) => {
                    return Err(e);
                },
            }
            let value = match self.parse_value() {
                Ok(v) => v,
                Err(e) => {
                    return Err(e);
                },
            };
            // Reject a second binding for the same field name.
            let nf = fields.len();
            let mut q: usize = 0;
            while q < nf
                invariant
                    nf == fields@.len(),
                    0 <= q <= nf,
                    self.inv(),
                    self.tokens@ == old(self).tokens@,
                    self.pos > old(self).pos,
                decreases nf - q,
            {
                if bytes_equal(&fields[q].0, &field) {
                    return Err(ParseError::DuplicateFieldBinding);
                }
                q += 1;
            }
            fields.push((field, value));
            let at_end2 = match self.peek_tok() {
                None => true,
                Some(Token::RBrace) => true,
                _ => false,
            };
            if at_end2 {
                break ;
            }
            match self.consume(Token::Comma) {
                Ok(_) => {},
                Err(e) => {
                    return Err(e);
                },
            }
        }
        match self.consume(Token::RBrace) {
            Ok(_) => {},
            Err(e) => {
                return Err(e);
            },
        }
        Ok(ParsedValue::Struct(addr, module_name, struct_name, fields))
    }

    /// Parse a possibly empty list of values separated by `delim` and
    /// closed by `end_token`, which is left in the stream; a trailing
    /// separator is allowed.
    fn parse_value_list(&mut self, delim: Token, end_token: Token) -> (r: Result<
        Vec<ParsedValue>,
        ParseError,
    >)
        requires
            old(self).inv(),
        ensures
            final(self).inv(),
            final(self).tokens@ == old(self).tokens@,
            final(self).pos >= old(self).pos,
        decreases old(self).tokens@.len() - old(self).pos, 1int,
    {
        let mut v: Vec<ParsedValue> = Vec::new();
        loop
            invariant
                self.inv(),
                self.tokens@ == old(self).tokens@,
                self.pos >= old(self).pos,
            decreases self.tokens@.len() - self.pos,
        {
            let at_end = match self.peek_tok() {
                None => true,
                Some(t) => t == end_token,
            };
            if at_end {
                return Ok(v);
            }
            let item = match self.parse_value() {
                Ok(t) => t,
                Err(e) => {
                    return Err(e);
                },
            };
            v.push(item);
            let at_end2 = match self.peek_tok() {
                None => true,
                Some(t) => t == end_token,
            };
            if at_end2 {
                return Ok(v);
            }
            match self.consume(delim) {
                Ok(_) => {},
                Err(e) => {
                    return Err(e);
                },
            }
        }
    }
}

/// Whether two byte strings are equal.
fn bytes_equal(a: &Vec<u8>, b: &Vec<u8>) -> (r: bool)
    ensures
        r <==> a@ == b@,
{
    if a.len() != b.len() {
        return false;
    }
    let n = a.len();
    let mut i: usize = 0;
    while i < n
        invariant
            n == a@.len(),
            n == b@.len(),
            0 <= i <= n,
            forall|j: int| 0 <= j < i ==> a@[j] == b@[j],
        decreases n - i,
    {
        if a[i] != b[i] {
            return false;
        }
        i += 1;
    }
    proof {
        assert(a@ =~= b@);
    }
    true
}

/// Turn one token into an address: a number becomes a numeric address, an
/// identifier a named one.
pub fn parse_address_impl(tok: Token, contents: Vec<u8>) -> (r: Result<ParsedAddress, ParseError>) {
    match tok {
        Token::Number => {
            match NumericalAddress::parse_str(&contents) {
                Ok(a) => Ok(ParsedAddress::Numerical(a)),
                Err(e) => Err(e),
            }
        },
        Token::AddressIdent => {
            match NumericalAddress::parse_str(&contents) {
                Ok(a) => Ok(ParsedAddress::Numerical(a)),
                Err(e) => Err(e),
            }
        },
        Token::Ident => Ok(ParsedAddress::Named(contents)),
        _ => Err(ParseError::UnexpectedToken),
    }
}

/// Tokenize with the given tokenizer, parse one item, and require the
/// stream to be exhausted.
impl ParsedType {
    /// Parse a full type expression from text.
    pub fn parse(s: &str) -> (r: Result<ParsedType, ParseError>) {
        let b = vstd::slice::slice_to_vec(s.as_bytes());
        let toks = match tokenize_type(&b) {
            Ok(t) => t,
            Err(e) => {
                return Err(e);
            },
        };
        let mut p = Parser::new(filter_whitespace(toks));
        let ty = match p.parse_type() {
            Ok(t) => t,
            Err(e) => {
                return Err(e);
            },
        };
        if p.pos < p.tokens.len() {
            return Err(ParseError::TrailingTokens);
        }
        Ok(ty)
    }
}

impl ParsedStructType {
    /// Parse a full struct type from text.
    pub fn parse(s: &str) -> (r: Result<ParsedStructType, ParseError>) {
        match ParsedType::parse(s) {
            Ok(ParsedType::Struct(st)) => Ok(st),
            Ok(_) => Err(ParseError::UnexpectedToken),
            Err(e) => Err(e),
        }
    }
}

impl ParsedAddress {
    /// Parse a full address from text.
    pub fn parse(s: &str) -> (r: Result<ParsedAddress, ParseError>) {
        let b = vstd::slice::slice_to_vec(s.as_bytes());
        let toks = match tokenize_value(&b) {
            Ok(t) => t,
            Err(e) => {
                return Err(e);
            },
        };
        let mut p = Parser::new(filter_whitespace(toks));
        let a = match p.parse_address() {
            Ok(a) => a,
            Err(e) => {
                return Err(e);
            },
        };
        if p.pos < p.tokens.len() {
            return Err(ParseError::TrailingTokens);
        }
        Ok(a)
    }
}

impl ParsedValue {
    /// Parse a full value literal from text.
    pub fn parse(s: &str) -> (r: Result<ParsedValue, ParseError>) {
        let b = vstd::slice::slice_to_vec(s.as_bytes());
        let toks = match tokenize_value(&b) {
            Ok(t) => t,
            Err(e) => {
                return Err(e);
            },
        };
        let mut p = Parser::new(filter_whitespace(toks));
        let v = match p.parse_value() {
            Ok(v) => v,
            Err(e) => {
                return Err(e);
            },
        };
        if p.pos < p.tokens.len() {
            return Err(ParseError::TrailingTokens);
        }
        Ok(v)
    }
}

} // verus!
