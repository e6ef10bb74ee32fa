//! The size of an image and its text form `WxH`.
use vstd::prelude::*;
use vstd::string::*;
use vstd::utf8::{encode_utf8, is_ascii_chars, is_ascii_chars_encode_utf8};
use crate::canvas::encodable;

verus! {

/// Width and height of an image, in pixels. Either may be zero: the image
/// then has no pixel.
#[derive(Debug, Default, Clone, Copy, PartialEq, Eq, Structural)]
pub struct Size {
    pub width: u32,
    pub height: u32,
}

/// Why a text is no size.
#[derive(Debug, Clone, Copy, PartialEq, Eq, Structural)]
pub enum ParseSizeError {
    /// A number is missing: the text is empty, has nothing before its first
    /// `x`, or nothing after it.
    Empty,
    /// A number holds something else than decimal digits after an optional
    /// `+`, or holds no digit.
    InvalidDigit,
    /// A number is above `u32::MAX`.
    PosOverflow,
}

/// The byte `x`, which parts width and height.
pub const SEPARATOR: u8 = 0x78;

/// The byte `+`.
pub const PLUS: u8 = 0x2b;

/// The byte `-`.
pub const MINUS: u8 = 0x2d;

/// The byte `0`; the other digits follow it.
pub const ZERO: u8 = 0x30;

pub open spec fn is_digit(b: u8) -> bool {
    0x30 <= b <= 0x39
}

/// The number that the digits `s` continue from `acc`, read from the left:
/// the first byte that is no digit, or the first digit that leads above
/// `u32::MAX`, ends the reading with its error.
pub open spec fn digits_from(s: Seq<u8>, acc: int) -> Result<u32, ParseSizeError>
    decreases s.len(),
{
    if s.len() == 0 {
        Ok(acc as u32)
    } else if !is_digit(s[0]) {
        Err(ParseSizeError::InvalidDigit)
    } else if acc * 10 + (s[0] - 0x30) > u32::MAX {
        Err(ParseSizeError::PosOverflow)
    } else {
        digits_from(s.skip(1), acc * 10 + (s[0] - 0x30))
    }
}

/// The number that a text is: decimal digits, with `+` before them or not.
pub open spec fn number(s: Seq<u8>) -> Result<u32, ParseSizeError> {
    if s.len() == 0 {
        Err(ParseSizeError::Empty)
    } else if s.len() == 1 && (s[0] == 0x2b || s[0] == 0x2d) {
        Err(ParseSizeError::InvalidDigit)
    } else if s[0] == 0x2b {
        digits_from(s.skip(1), 0)
    } else {
        digits_from(s, 0)
    }
}

/// The place of the first `x` at or after `from`; the length where there is
/// none.
pub open spec fn next_separator(s: Seq<u8>, from: int) -> int
    decreases s.len() - from,
{
    if from >= s.len() {
        s.len() as int
    } else if s[from] == 0x78 {
        from
    } else {
        next_separator(s, from + 1)
    }
}

/// What is before the first `x`.
pub open spec fn width_text(s: Seq<u8>) -> Seq<u8> {
    s.subrange(0, next_separator(s, 0))
}

/// What is between the first `x` and the second, or the end; nothing where
/// there is no `x`.
pub open spec fn height_text(s: Seq<u8>) -> Seq<u8> {
    let first = next_separator(s, 0);
    if first < s.len() {
        s.subrange(first + 1, next_separator(s, first + 1))
    } else {
        Seq::empty()
    }
}

/// The size that a text is: the width, an `x`, the height. What follows a
/// second `x` is not looked at. Of two errors the one of the width is given.
pub open spec fn parsed(s: Seq<u8>) -> Result<Size, ParseSizeError> {
    match number(width_text(s)) {
        Err(e) => Err(e),
        Ok(width) => match number(height_text(s)) {
            Err(e) => Err(e),
            Ok(height) => Ok(Size { width, height }),
        },
    }
}

/// The decimal digits of a number, without leading zeros.
pub open spec fn decimal(n: nat) -> Seq<u8>
    decreases n,
{
    if n < 10 {
        seq![(0x30 + n) as u8]
    } else {
        decimal(n / 10).push((0x30 + n % 10) as u8)
    }
}

/// The text of a size: the width, an `x`, the height.
pub open spec fn size_text(size: Size) -> Seq<u8> {
    decimal(size.width as nat).push(0x78) + decimal(size.height as nat)
}

/// The text whose characters are the given ASCII bytes.
pub open spec fn ascii(bytes: Seq<u8>) -> Seq<char> {
    Seq::new(bytes.len(), |i: int| bytes[i] as char)
}

/// The place of the first `x` at or after `from`.
fn find_separator(bytes: &[u8], from: usize) -> (at: usize)
    requires
        from <= bytes@.len(),
    ensures
        at == next_separator(bytes@, from as int),
        from <= at <= bytes@.len(),
{
    let mut at: usize = from;
    while at < bytes.len() && bytes[at] != SEPARATOR
        invariant
            from <= at <= bytes@.len(),
            next_separator(bytes@, from as int) == next_separator(bytes@, at as int),
        decreases bytes@.len() - at,
    {
        at = at + 1;
    }
    at
}

/// Reads the number that stands in `bytes` from `from` up to `to`.
fn read_number(bytes: &[u8], from: usize, to: usize) -> (r: Result<u32, ParseSizeError>)
    requires
        from <= to <= bytes@.len(),
    ensures
        r == number(bytes@.subrange(from as int, to as int)),
{
    let ghost text = bytes@.subrange(from as int, to as int);
    if from == to {
        return Err(ParseSizeError::Empty);
    }
    let first: u8 = bytes[from];
    if to - from == 1 && (first == PLUS || first == MINUS) {
        return Err(ParseSizeError::InvalidDigit);
    }
    let start: usize = if first == PLUS {
        from + 1
    } else {
        from
    };
    let ghost digits = bytes@.subrange(start as int, to as int);
    proof {
        if first == PLUS {
            assert(text.skip(1) =~= digits);
        } else {
            assert(text =~= digits);
        }
        assert(number(text) == digits_from(digits, 0));
    }
    let mut acc: u32 = 0;
    let mut i: usize = start;
    while i < to
        invariant
            start <= i <= to <= bytes@.len(),
            text == bytes@.subrange(from as int, to as int),
            number(text) == digits_from(bytes@.subrange(i as int, to as int), acc as int),
        decreases to - i,
    {
        let b: u8 = bytes[i];
        let ghost rest = bytes@.subrange(i as int, to as int);
        proof {
            assert(rest.len() > 0);
            assert(rest[0] == b);
            assert(rest.skip(1) =~= bytes@.subrange(i + 1, to as int));
        }
        if b < ZERO || b > 0x39 {
            assert(digits_from(rest, acc as int) == Err::<u32, ParseSizeError>(
                ParseSizeError::InvalidDigit,
            ));
            return Err(ParseSizeError::InvalidDigit);
        }
        let d: u32 = (b - ZERO) as u32;
        if acc > (u32::MAX - d) / 10 {
            assert(digits_from(rest, acc as int) == Err::<u32, ParseSizeError>(
                ParseSizeError::PosOverflow,
            ));
            return Err(ParseSizeError::PosOverflow);
        }
        assert(digits_from(rest, acc as int) == digits_from(rest.skip(1), acc * 10 + d));
        acc = acc * 10 + d;
        i = i + 1;
    }
    proof {
        assert(bytes@.subrange(i as int, to as int).len() == 0);
    }
    Ok(acc)
}

/// Appends the decimal digits of `n`.
fn push_decimal(out: &mut String, n: u32)
    ensures
        final(out)@ == old(out)@ + ascii(decimal(n as nat)),
    decreases n,
{
    if n >= 10 {
        push_decimal(out, n / 10);
    }
    let d: u32 = n % 10;
    let digit: &'static str = if d == 0 {
        "0"
    } else if d == 1 {
        "1"
    } else if d == 2 {
        "2"
    } else if d == 3 {
        "3"
    } else if d == 4 {
        "4"
    } else if d == 5 {
        "5"
    } else if d == 6 {
        "6"
    } else if d == 7 {
        "7"
    } else if d == 8 {
        "8"
    } else {
        "9"
    };
    proof {
        reveal_strlit("0");
        reveal_strlit("1");
        reveal_strlit("2");
        reveal_strlit("3");
        reveal_strlit("4");
        reveal_strlit("5");
        reveal_strlit("6");
        reveal_strlit("7");
        reveal_strlit("8");
        reveal_strlit("9");
        assert(digit@ =~= seq![((0x30 + d) as u8) as char]);
        if n >= 10 {
            assert(ascii(decimal(n as nat)) =~= ascii(decimal((n / 10) as nat)) + digit@);
        } else {
            assert(ascii(decimal(n as nat)) =~= digit@);
        }
    }
    out.append(digit);
}

impl Size {
    /// Whether an image of this size can be made: see `encodable`.
    pub open spec fn is_encodable(self) -> bool {
        encodable(self.width, self.height)
    }

    /// Whether an image of this size can be made.
    pub fn can_be_encoded(&self) -> (r: bool)
        ensures
            r == self.is_encodable(),
    {
        let rows: u64 = self.height as u64 + 1;
        let row: u64 = 4 * (self.width as u64) + 4;
        assert(rows * row <= 0x1_0000_0000 * 0x4_0000_0000) by (nonlinear_arith)
            requires
                rows <= 0x1_0000_0000,
                row <= 0x4_0000_0000,
        ;
        let total: u128 = (rows as u128) * (row as u128) + 54;
        total <= 0xffff_ffff
    }

    /// Reads a size from the bytes of its text.
    pub fn parse_bytes(bytes: &[u8]) -> (r: Result<Size, ParseSizeError>)
        ensures
            r == parsed(bytes@),
    {
        let first: usize = find_separator(bytes, 0);
        let width: u32 = match read_number(bytes, 0, first) {
            Ok(n) => n,
            Err(e) => {
                return Err(e);
            },
        };
        let height: u32 = if first < bytes.len() {
            let second: usize = find_separator(bytes, first + 1);
            match read_number(bytes, first + 1, second) {
                Ok(n) => n,
                Err(e) => {
                    return Err(e);
                },
            }
        } else {
            let r = read_number(bytes, first, first);
            proof {
                assert(bytes@.subrange(first as int, first as int) =~= Seq::<u8>::empty());
            }
            match r {
                Ok(n) => n,
                Err(e) => {
                    return Err(e);
                },
            }
        };
        Ok(Size { width, height })
    }

    /// Reads a size from a text of the form `WxH`, such as `512x256`.
    pub fn parse(text: &str) -> (r: Result<Size, ParseSizeError>)
        ensures
            r == parsed(text.spec_bytes()),
    {
        Size::parse_bytes(text.as_bytes())
    }

    /// The text of the size: the width, an `x`, the height, such as
    /// `512x256`.
    pub fn to_text(&self) -> (r: String)
        ensures
            r@ == ascii(size_text(*self)),
            encode_utf8(r@) == size_text(*self),
            parsed(encode_utf8(r@)) == Ok::<Size, ParseSizeError>(*self),
    {
        let mut out = String::new();
        push_decimal(&mut out, self.width);
        proof {
            reveal_strlit("x");
        }
        out.append("x");
        push_decimal(&mut out, self.height);
        proof {
            let w = decimal(self.width as nat);
            let h = decimal(self.height as nat);
            assert(ascii(w.push(0x78) + h) =~= ascii(w) + seq!['x'] + ascii(h));
            assert(out@ == ascii(size_text(*self)));
            lemma_text_bytes(*self);
            lemma_text_reads_back(*self);
        }
        out
    }
}

impl std::str::FromStr for Size {
    type Err = ParseSizeError;

    /// Reads a size from a text of the form `WxH`, as `Size::parse` does.
    fn from_str(s: &str) -> (r: Result<Self, Self::Err>)
        ensures
            r == parsed(s.spec_bytes()),
    {
        Size::parse(s)
    }
}

/// What one more digit at the end makes of a number read so far.
pub open spec fn with_digit(so_far: Result<u32, ParseSizeError>, b: u8) -> Result<
    u32,
    ParseSizeError,
> {
    match so_far {
        Err(e) => Err(e),
        Ok(v) => if !is_digit(b) {
            Err(ParseSizeError::InvalidDigit)
        } else if v * 10 + (b - 0x30) > u32::MAX {
            Err(ParseSizeError::PosOverflow)
        } else {
            Ok((v * 10 + (b - 0x30)) as u32)
        },
    }
}

/// Reading digits from the left is reading all but the last, then the last.
pub proof fn lemma_digits_push(s: Seq<u8>, acc: int, b: u8)
    requires
        0 <= acc <= u32::MAX,
    ensures
        digits_from(s.push(b), acc) == with_digit(digits_from(s, acc), b),
    decreases s.len(),
{
    if s.len() == 0 {
        assert(s.push(b).skip(1) =~= s);
        assert(s.push(b)[0] == b);
        if is_digit(b) && acc * 10 + (b - 0x30) <= u32::MAX {
            assert(digits_from(s.push(b).skip(1), acc * 10 + (b - 0x30)) == Ok::<
                u32,
                ParseSizeError,
            >((acc * 10 + (b - 0x30)) as u32));
        }
    } else {
        assert(s.push(b)[0] == s[0]);
        assert(s.push(b).skip(1) =~= s.skip(1).push(b));
        if is_digit(s[0]) && acc * 10 + (s[0] - 0x30) <= u32::MAX {
            lemma_digits_push(s.skip(1), acc * 10 + (s[0] - 0x30), b);
        }
    }
}

/// The decimal digits of a number are digits, and read back as the number.
pub proof fn lemma_decimal_reads_back(n: nat)
    requires
        n <= u32::MAX,
    ensures
        decimal(n).len() >= 1,
        forall|i: int| 0 <= i < decimal(n).len() ==> is_digit(#[trigger] decimal(n)[i]),
        digits_from(decimal(n), 0) == Ok::<u32, ParseSizeError>(n as u32),
        number(decimal(n)) == Ok::<u32, ParseSizeError>(n as u32),
    decreases n,
{
    if n < 10 {
        let s = decimal(n);
        assert(s.len() == 1 && s[0] == (0x30 + n) as u8);
        assert(s.skip(1).len() == 0);
        assert(digits_from(s.skip(1), n as int) == Ok::<u32, ParseSizeError>(n as u32));
    } else {
        lemma_decimal_reads_back(n / 10);
        lemma_digits_push(decimal(n / 10), 0, (0x30 + n % 10) as u8);
    }
}

/// The first `x` from `from` is at `at` where nothing before `at` is one
/// and `at` is one or the end.
pub proof fn lemma_next_separator(s: Seq<u8>, from: int, at: int)
    requires
        0 <= from <= at <= s.len(),
        forall|i: int| from <= i < at ==> #[trigger] s[i] != 0x78,
        at == s.len() || s[at] == 0x78,
    ensures
        next_separator(s, from) == at,
    decreases at - from,
{
    if from < at {
        lemma_next_separator(s, from + 1, at);
    }
}

/// The text of a size is made of ASCII characters: its bytes are its
/// characters.
pub proof fn lemma_text_bytes(size: Size)
    ensures
        encode_utf8(ascii(size_text(size))) == size_text(size),
{
    let bytes = size_text(size);
    let chars = ascii(bytes);
    lemma_decimal_reads_back(size.width as nat);
    lemma_decimal_reads_back(size.height as nat);
    let w = decimal(size.width as nat);
    let h = decimal(size.height as nat);
    assert forall|i: int| 0 <= i < bytes.len() implies #[trigger] bytes[i] < 0x80 by {
        if i < w.len() {
            assert(bytes[i] == w[i]);
        } else if i > w.len() {
            assert(bytes[i] == h[i - w.len() - 1]);
        }
    }
    assert(is_ascii_chars(chars)) by {
        assert forall|i: int| 0 <= i < chars.len() implies '\0' <= #[trigger] chars[i]
            <= '\u{7f}' by {
            assert(bytes[i] < 0x80);
        }
    }
    is_ascii_chars_encode_utf8(chars);
    assert forall|i: int| 0 <= i < bytes.len() implies encode_utf8(chars)[i] == bytes[i] by {
        assert(chars[i] as u8 == encode_utf8(chars)[i]);
        assert(bytes[i] < 0x80);
        assert((bytes[i] as char) as u8 == bytes[i]);
    }
    assert(encode_utf8(chars) =~= bytes);
}

/// The text of a size reads back as the size.
pub proof fn lemma_text_reads_back(size: Size)
    ensures
        parsed(size_text(size)) == Ok::<Size, ParseSizeError>(size),
{
    let w = decimal(size.width as nat);
    let h = decimal(size.height as nat);
    let s = size_text(size);
    lemma_decimal_reads_back(size.width as nat);
    lemma_decimal_reads_back(size.height as nat);
    assert(s.len() == w.len() + 1 + h.len());
    assert forall|i: int| 0 <= i < w.len() implies #[trigger] s[i] != 0x78 by {
        assert(s[i] == w[i]);
    }
    assert(s[w.len() as int] == 0x78);
    lemma_next_separator(s, 0, w.len() as int);
    assert forall|i: int| w.len() + 1 <= i < s.len() implies #[trigger] s[i] != 0x78 by {
        assert(s[i] == h[i - w.len() - 1]);
    }
    lemma_next_separator(s, (w.len() + 1) as int, s.len() as int);
    assert(width_text(s) =~= w);
    assert(height_text(s) =~= h);
}

} // verus!
