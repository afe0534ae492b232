//! Numbers as text.
use vstd::prelude::*;
use vstd::string::*;
use vstd::utf8::*;

verus! {

/// The character of a digit.
pub open spec fn digit(d: nat) -> char {
    if d == 0 {
        '0'
    } else if d == 1 {
        '1'
    } else if d == 2 {
        '2'
    } else if d == 3 {
        '3'
    } else if d == 4 {
        '4'
    } else if d == 5 {
        '5'
    } else if d == 6 {
        '6'
    } else if d == 7 {
        '7'
    } else if d == 8 {
        '8'
    } else if d == 9 {
        '9'
    } else if d == 10 {
        'a'
    } else if d == 11 {
        'b'
    } else if d == 12 {
        'c'
    } else if d == 13 {
        'd'
    } else if d == 14 {
        'e'
    } else {
        'f'
    }
}

/// A number in decimal digits.
pub open spec fn decimal(n: nat) -> Seq<char>
    decreases n,
{
    if n < 10 {
        seq![digit(n)]
    } else {
        decimal(n / 10).push(digit(n % 10))
    }
}

/// A number in decimal digits, with a minus sign before it where it is negative.
pub open spec fn signed_decimal(n: int) -> Seq<char> {
    if n < 0 {
        seq!['-'] + decimal((-n) as nat)
    } else {
        decimal(n as nat)
    }
}

/// `n` zeros.
pub open spec fn zeros(n: nat) -> Seq<char> {
    Seq::new(n, |k: int| '0')
}

/// A number in decimal digits, filled up with zeros from the left to `width` characters.
pub open spec fn padded(n: nat, width: nat) -> Seq<char> {
    if decimal(n).len() >= width {
        decimal(n)
    } else {
        zeros((width - decimal(n).len()) as nat) + decimal(n)
    }
}

/// A number, signed, filled up with zeros between its sign and its digits to
/// `width` characters.
pub open spec fn signed_padded(n: int, width: nat) -> Seq<char> {
    if n < 0 {
        seq!['-'] + padded((-n) as nat, if width == 0 {
            0
        } else {
            (width - 1) as nat
        })
    } else {
        padded(n as nat, width)
    }
}

/// A byte in two hexadecimal digits.
pub open spec fn hex2(b: u8) -> Seq<char> {
    seq![digit((b / 16) as nat), digit((b % 16) as nat)]
}

/// Appends the character of a digit.
fn push_digit(out: &mut String, d: u8)
    requires
        d < 16,
    ensures
        final(out)@ == old(out)@.push(digit(d as nat)),
{
    proof {
        reveal_strlit("0");
        reveal_strlit("1");
        reveal_strlit("2");
        reveal_strlit("3");
        reveal_strlit("4");
        reveal_strlit("5");
        reveal_strlit("6");
        reveal_strlit("7");
        reveal_strlit("8");
        reveal_strlit("9");
        reveal_strlit("a");
        reveal_strlit("b");
        reveal_strlit("c");
        reveal_strlit("d");
        reveal_strlit("e");
        reveal_strlit("f");
    }
    let text: &str = match d {
        0 => "0",
        1 => "1",
        2 => "2",
        3 => "3",
        4 => "4",
        5 => "5",
        6 => "6",
        7 => "7",
        8 => "8",
        9 => "9",
        10 => "a",
        11 => "b",
        12 => "c",
        13 => "d",
        14 => "e",
        _ => "f",
    };
    assert(text@ =~= seq![digit(d as nat)]);
    out.append(text);
    assert(out@ =~= old(out)@.push(digit(d as nat)));
}

/// Appends a number in decimal digits.
pub fn push_decimal(out: &mut String, n: u64)
    ensures
        final(out)@ == old(out)@ + decimal(n as nat),
    decreases n,
{
    let ghost before = out@;
    if n >= 10 {
        push_decimal(out, n / 10);
    }
    let ghost held = out@;
    push_digit(out, (n % 10) as u8);
    proof {
        if n >= 10 {
            assert(out@ =~= before + decimal(n as nat));
        } else {
            assert(out@ =~= before + decimal(n as nat));
        }
    }
}

/// Appends a signed number in decimal digits.
pub fn push_signed(out: &mut String, n: i64)
    ensures
        final(out)@ == old(out)@ + signed_decimal(n as int),
{
    let ghost before = out@;
    if n < 0 {
        proof {
            reveal_strlit("-");
        }
        out.append("-");
        let magnitude: u64 = (-(n + 1)) as u64 + 1;
        push_decimal(out, magnitude);
        assert(out@ =~= before + signed_decimal(n as int));
    } else {
        push_decimal(out, n as u64);
    }
}

/// How many decimal digits a number has.
fn digits_of(n: u64) -> (k: usize)
    ensures
        k == decimal(n as nat).len(),
        1 <= k <= 20,
{
    proof {
        lemma_digits_bound(n as nat);
    }
    let mut k: usize = 1;
    let mut rest: u64 = n;
    while rest >= 10
        invariant
            k + decimal(rest as nat).len() == decimal(n as nat).len() + 1,
            decimal(rest as nat).len() >= 1,
            decimal(n as nat).len() <= 20,
            k >= 1,
        decreases rest,
    {
        proof {
            assert(decimal(rest as nat).len() == decimal((rest / 10) as nat).len() + 1);
            lemma_some_digit((rest / 10) as nat);
        }
        rest = rest / 10;
        k += 1;
    }
    k
}

/// Every number has a digit.
proof fn lemma_some_digit(n: nat)
    ensures
        decimal(n).len() >= 1,
    decreases n,
{
    if n >= 10 {
        lemma_some_digit(n / 10);
    }
}

/// A 64-bit number has at most 20 digits.
proof fn lemma_digits_bound(n: nat)
    requires
        n <= u64::MAX,
    ensures
        1 <= decimal(n).len() <= 20,
{
    lemma_some_digit(n);
    reveal_with_fuel(decimal, 21);
}

/// Appends a number in decimal digits, filled up with zeros to `width` characters.
pub fn push_padded(out: &mut String, n: u64, width: usize)
    ensures
        final(out)@ == old(out)@ + padded(n as nat, width as nat),
{
    let ghost before = out@;
    let digits: usize = digits_of(n);
    let fill: usize = if digits < width {
        width - digits
    } else {
        0
    };
    let mut k: usize = 0;
    assert(out@ =~= before + zeros(0));
    while k < fill
        invariant
            k <= fill,
            out@ == before + zeros(k as nat),
        decreases fill - k,
    {
        push_digit(out, 0);
        assert(out@ =~= before + zeros((k + 1) as nat));
        k += 1;
    }
    push_decimal(out, n);
    assert(out@ =~= before + padded(n as nat, width as nat)) by {
        if digits >= width {
            assert(before + zeros(0) =~= before);
        } else {
            assert(out@ =~= before + (zeros(fill as nat) + decimal(n as nat)));
        }
    }
}

/// Appends a signed number filled up with zeros to `width` characters.
pub fn push_signed_padded(out: &mut String, n: i64, width: usize)
    ensures
        final(out)@ == old(out)@ + signed_padded(n as int, width as nat),
{
    let ghost before = out@;
    if n < 0 {
        proof {
            reveal_strlit("-");
        }
        out.append("-");
        let magnitude: u64 = (-(n + 1)) as u64 + 1;
        push_padded(out, magnitude, if width == 0 {
            0
        } else {
            width - 1
        });
        assert(out@ =~= before + signed_padded(n as int, width as nat));
    } else {
        push_padded(out, n as u64, width);
    }
}

/// Appends a byte in two hexadecimal digits.
pub fn push_hex2(out: &mut String, b: u8)
    ensures
        final(out)@ == old(out)@ + hex2(b),
{
    let ghost before = out@;
    push_digit(out, b / 16);
    push_digit(out, b % 16);
    assert(out@ =~= before + hex2(b));
}

/// The value of decimal digits, or `None` where a byte is no digit.
pub open spec fn digits_value(s: Seq<u8>) -> Option<nat>
    decreases s.len(),
{
    if s.len() == 0 {
        Some(0)
    } else {
        match digits_value(s.drop_last()) {
            Some(v) if 48 <= s.last() <= 57 => Some((10 * v + (s.last() - 48)) as nat),
            _ => None,
        }
    }
}

/// The number that text stands for: decimal digits, at least one, after an
/// optional plus sign.
pub open spec fn number_in(s: Seq<u8>) -> Option<nat> {
    let digits = unsigned_part(s);
    if digits.len() == 0 {
        None
    } else {
        digits_value(digits)
    }
}

/// How many bytes at the front are digits.
pub open spec fn leading_digits(s: Seq<u8>) -> nat
    decreases s.len(),
{
    if s.len() == 0 || !(48 <= s[0] <= 57) {
        0
    } else {
        1 + leading_digits(s.skip(1))
    }
}

/// The text without the plus sign it may begin with.
pub open spec fn unsigned_part(s: Seq<u8>) -> Seq<u8> {
    if s.len() > 0 && s[0] == 43 {
        s.skip(1)
    } else {
        s
    }
}

/// Whether the digits at the front already stand for more than `max`.
pub open spec fn runs_over(s: Seq<u8>, max: nat) -> bool {
    digits_value(s.take(leading_digits(s) as int)) matches Some(v) && v > max
}

/// Why text stands for no number of the wanted size.
#[derive(Clone, Copy, Debug, PartialEq, Eq, Structural)]
pub enum NumberError {
    /// There is no text.
    Empty,
    /// A character is no digit, or there is nothing but a sign.
    InvalidDigit,
    /// The number is too large.
    TooLarge,
}

impl NumberError {
    /// The reason in words.
    pub open spec fn words(self) -> Seq<char> {
        match self {
            NumberError::Empty => "cannot parse integer from empty string"@,
            NumberError::InvalidDigit => "invalid digit found in string"@,
            NumberError::TooLarge => "number too large to fit in target type"@,
        }
    }

    /// The reason in words.
    pub fn message(self) -> (s: &'static str)
        ensures
            s@ == self.words(),
    {
        match self {
            NumberError::Empty => "cannot parse integer from empty string",
            NumberError::InvalidDigit => "invalid digit found in string",
            NumberError::TooLarge => "number too large to fit in target type",
        }
    }
}

/// More digits stand for no smaller number.
proof fn lemma_digits_grow(s: Seq<u8>, n: int)
    requires
        0 <= n <= s.len(),
        digits_value(s) is Some,
    ensures
        digits_value(s.take(n)) is Some,
        digits_value(s.take(n))->Some_0 <= digits_value(s)->Some_0,
    decreases s.len(),
{
    if n == s.len() {
        assert(s.take(n) =~= s);
    } else {
        lemma_digits_grow(s.drop_last(), n);
        assert(s.drop_last().take(n) =~= s.take(n));
    }
}

/// The digits at the front are all that is digits from there on.
proof fn lemma_leading_digits(s: Seq<u8>, k: int)
    requires
        0 <= k <= s.len(),
        forall|j: int| 0 <= j < k ==> 48 <= #[trigger] s[j] <= 57,
    ensures
        k <= leading_digits(s) <= s.len(),
        k < s.len() && !(48 <= s[k] <= 57) ==> leading_digits(s) == k,
        digits_value(s.take(leading_digits(s) as int)) is Some,
    decreases s.len(),
{
    if s.len() > 0 && 48 <= s[0] <= 57 {
        let rest = s.skip(1);
        if k > 0 {
            assert forall|j: int| 0 <= j < k - 1 implies 48 <= #[trigger] rest[j] <= 57 by {
                assert(48 <= s[j + 1] <= 57);
            }
            lemma_leading_digits(rest, k - 1);
        } else {
            lemma_leading_digits(rest, 0);
        }
        assert(s.take(leading_digits(s) as int) =~= seq![s[0]] + rest.take(
            leading_digits(rest) as int,
        ));
        lemma_digit_before(s[0], rest.take(leading_digits(rest) as int));
    } else {
        assert(s.take(0) =~= Seq::<u8>::empty());
    }
}

/// A digit before digits leaves digits.
proof fn lemma_digit_before(b: u8, s: Seq<u8>)
    requires
        48 <= b <= 57,
        digits_value(s) is Some,
    ensures
        digits_value(seq![b] + s) is Some,
    decreases s.len(),
{
    let t = seq![b] + s;
    if s.len() == 0 {
        assert(t.drop_last() =~= Seq::<u8>::empty());
        assert(t.last() == b);
        assert(digits_value(Seq::<u8>::empty()) is Some);
    } else {
        lemma_digit_before(b, s.drop_last());
        assert(t.drop_last() =~= seq![b] + s.drop_last());
        assert(t.last() == s.last());
        assert(digits_value(s.drop_last()) is Some);
    }
}

/// The first byte that is no digit settles that there is no number.
proof fn lemma_bad_digit(s: Seq<u8>, k: int)
    requires
        0 <= k < s.len(),
        !(48 <= s[k] <= 57),
    ensures
        digits_value(s) is None,
    decreases s.len(),
{
    if k < s.len() - 1 {
        lemma_bad_digit(s.drop_last(), k);
    }
}

/// The number that text stands for, at most `max`.
pub fn parse_number(s: &[u8], max: u64) -> (r: Result<u64, NumberError>)
    ensures
        r matches Ok(v) ==> number_in(s@) == Some(v as nat) && v <= max,
        r is Ok <==> (number_in(s@) matches Some(v) && v <= max),
        r matches Err(e) ==> match e {
            NumberError::Empty => s@.len() == 0,
            NumberError::InvalidDigit => s@.len() > 0 && number_in(s@) is None && !runs_over(
                unsigned_part(s@),
                max as nat,
            ),
            NumberError::TooLarge => s@.len() > 0 && runs_over(unsigned_part(s@), max as nat),
        },
{
    if s.len() == 0 {
        return Err(NumberError::Empty);
    }
    let len: usize = s.len();
    let from: usize = if s[0] == 43 {
        1
    } else {
        0
    };
    let ghost digits = s@.skip(from as int);
    assert(from == 0 ==> digits =~= s@);
    if from == len {
        assert(leading_digits(digits) == 0);
        assert(digits.take(0) =~= Seq::<u8>::empty());
        return Err(NumberError::InvalidDigit);
    }
    let mut v: u64 = 0;
    let mut k: usize = from;
    assert(digits.take(0) =~= Seq::<u8>::empty());
    while k < len
        invariant
            len == s@.len(),
            from <= k <= len,
            from < len,
            from == (if s@[0] == 43 {
                1int
            } else {
                0int
            }),
            digits == s@.skip(from as int),
            from == 0 ==> digits == s@,
            digits == unsigned_part(s@),
            digits_value(digits.take(k - from)) == Some(v as nat),
            v <= max,
            forall|j: int| 0 <= j < k - from ==> 48 <= #[trigger] digits[j] <= 57,
        decreases len - k,
    {
        let b: u8 = s[k];
        assert(digits[k - from] == b);
        if b < 48 || b > 57 {
            proof {
                lemma_bad_digit(digits, k - from);
                lemma_leading_digits(digits, k - from);
            }
            return Err(NumberError::InvalidDigit);
        }
        proof {
            assert(digits.take(k + 1 - from).drop_last() =~= digits.take(k - from));
            assert(digits.take(k + 1 - from).last() == b);
        }
        let d: u64 = (b - 48) as u64;
        if v > max / 10 || (max - v * 10 < d) {
            proof {
                assert(10 * v + d > max);
                lemma_leading_digits(digits, k + 1 - from);
                let run = leading_digits(digits) as int;
                lemma_digits_grow(digits.take(run), k + 1 - from);
                assert(digits.take(run).take(k + 1 - from) =~= digits.take(k + 1 - from));
                if digits_value(digits) is Some {
                    lemma_digits_grow(digits, k + 1 - from);
                }
            }
            return Err(NumberError::TooLarge);
        }
        v = v * 10 + d;
        k += 1;
    }
    assert(digits.take(k - from) =~= digits);
    Ok(v)
}

/// A decimal digit is one of the ten characters from `0` on, in order, and the sixteen
/// hexadecimal ones go on with `a`.
pub proof fn law_digits_in_order(d: nat)
    ensures
        d < 10 ==> digit(d) as int == '0' as int + d,
        10 <= d < 16 ==> digit(d) as int == 'a' as int + (d - 10),
{
}

/// Bytes of digits with those of their number before them.
proof fn lemma_decimal_bytes(n: nat)
    ensures
        is_ascii_chars(decimal(n)),
        digits_value(encode_utf8(decimal(n))) == Some(n),
        encode_utf8(decimal(n)).len() >= 1,
        forall|k: int|
            0 <= k < encode_utf8(decimal(n)).len() ==> 48 <= #[trigger] encode_utf8(decimal(n))[k] <= 57,
    decreases n,
{
    let s = decimal(n);
    if n < 10 {
        assert(is_ascii_chars(s));
        is_ascii_chars_encode_utf8(s);
        let b = encode_utf8(s);
        assert(b[0] == s[0] as u8);
        assert(b[0] == 48 + n);
        assert(b.drop_last() =~= Seq::empty());
        assert(digits_value(b.drop_last()) == Some(0nat));
    } else {
        let front = decimal(n / 10);
        lemma_decimal_bytes(n / 10);
        assert(s =~= front.push(digit(n % 10)));
        assert(is_ascii_chars(s)) by {
            assert forall|k: int| 0 <= k < s.len() implies '\0' <= #[trigger] s[k] <= '\u{7f}' by {
                if k < front.len() {
                    assert(s[k] == front[k]);
                }
            }
        }
        is_ascii_chars_encode_utf8(s);
        is_ascii_chars_encode_utf8(front);
        let b = encode_utf8(s);
        let a = encode_utf8(front);
        assert forall|k: int| 0 <= k < a.len() implies #[trigger] a[k] == b[k] by {
            assert(front[k] == s[k]);
        }
        assert(b.drop_last() =~= a);
        assert(b.last() == s.last() as u8);
        assert(b.last() == 48 + n % 10);
        assert forall|k: int| 0 <= k < b.len() implies 48 <= #[trigger] b[k] <= 57 by {
            if k < a.len() {
                assert(a[k] == b[k]);
            }
        }
    }
}

/// A number written in decimal digits is read as that number.
pub proof fn law_decimal_reads_back(n: nat)
    ensures
        number_in(encode_utf8(decimal(n))) == Some(n),
{
    lemma_decimal_bytes(n);
    let b = encode_utf8(decimal(n));
    assert(48 <= b[0] <= 57);
}

/// A number has no zero before its digits, but for zero itself.
pub proof fn law_decimal_has_no_zero_in_front(n: nat)
    ensures
        n > 0 ==> decimal(n)[0] != '0',
        decimal(n).len() >= 1,
        decimal(0).len() == 1,
    decreases n,
{
    if n >= 10 {
        law_decimal_has_no_zero_in_front(n / 10);
    }
}

/// A number filled up is its digits behind as many zeros as they lack of the width.
pub proof fn law_padded_has_the_width(n: nat, width: nat, k: int)
    requires
        0 <= k < padded(n, width).len(),
    ensures
        padded(n, width).len() == (if decimal(n).len() < width {
            width
        } else {
            decimal(n).len()
        }),
        ({
            let fill = padded(n, width).len() - decimal(n).len();
            padded(n, width)[k] == (if k < fill {
                '0'
            } else {
                decimal(n)[k - fill]
            })
        }),
{
}

/// A number below zero has a minus sign and is otherwise written as its opposite.
pub proof fn law_sign_comes_first(n: nat, width: nat)
    requires
        n > 0,
    ensures
        signed_decimal(-(n as int)) == seq!['-'] + signed_decimal(n as int),
        signed_decimal(n as int) == decimal(n),
        signed_padded(n as int, width) == padded(n, width),
        signed_padded(-(n as int), width + 1) == seq!['-'] + padded(n, width),
{
}

/// A byte is written as its two hexadecimal digits, the higher first.
pub proof fn law_hexadecimal_digits(hi: u8, lo: u8)
    requires
        hi < 16,
        lo < 16,
    ensures
        hex2((16 * hi + lo) as u8) == seq![digit(hi as nat), digit(lo as nat)],
{
}

/// Digits tell a number the further left the more: a digit more counts the ones before ten
/// times. Nothing but digits, after at most one plus sign, tells a number.
pub proof fn law_digits_tell_a_number(s: Seq<u8>, b: u8)
    requires
        s.len() > 0,
    ensures
        number_in(s.push(b)) == (match number_in(s) {
            Some(v) => if 48 <= b <= 57 {
                Some((10 * v + (b - 48)) as nat)
            } else {
                None
            },
            None => if s.len() == 1 && s[0] == 43 && 48 <= b <= 57 {
                Some((b - 48) as nat)
            } else {
                None
            },
        }),
        number_in(seq![b]) == (if 48 <= b <= 57 {
            Some((b - 48) as nat)
        } else {
            None
        }),
        number_in(Seq::empty()) is None,
{
    let t = s.push(b);
    let one = seq![b];
    assert(one.drop_last() =~= Seq::empty());
    assert(digits_value(Seq::<u8>::empty()) == Some(0nat));
    if b == 43 {
        assert(one.skip(1) =~= Seq::empty());
    }
    if s[0] == 43 {
        assert(t.skip(1) =~= s.skip(1).push(b));
        assert(t.skip(1).drop_last() =~= s.skip(1));
        if s.len() == 1 {
            assert(s.skip(1) =~= Seq::empty());
        }
    } else {
        assert(t.drop_last() =~= s);
    }
}

} // verus!
