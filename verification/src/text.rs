//! Numbers as text.
use crate::decimal::{lemma_pow10_positive, pow10, valid_parts, valid_sign, MAX_MANTISSA};
use crate::types::UserID;
use vstd::prelude::*;
use vstd::std_specs::iter::IteratorSpec;
use vstd::string::StringExecFns;

verus! {

/// The character of a digit.
pub open spec fn digit(d: int) -> char {
    (48 + d) as char
}

pub open spec fn is_digit(c: char) -> bool {
    48 <= c as int <= 57
}

pub open spec fn is_ascii_char(c: char) -> bool {
    0 <= c as int <= 127
}

/// A number in decimal notation, without leading zeros.
pub open spec fn digits(n: nat) -> Seq<char>
    decreases n,
{
    if n < 10 {
        seq![digit(n as int)]
    } else {
        digits(n / 10).push(digit((n % 10) as int))
    }
}

/// The last digits of a number, as many as asked for.
pub open spec fn padded(n: nat, width: nat) -> Seq<char>
    decreases width,
{
    if width == 0 {
        Seq::empty()
    } else {
        padded(n / 10, (width - 1) as nat).push(digit((n % 10) as int))
    }
}

pub open spec fn magnitude(x: int) -> nat {
    if x < 0 {
        (-x) as nat
    } else {
        x as nat
    }
}

/// A decimal as it is written: a minus sign where it has one, the whole part, and,
/// where the scale is not zero, a point and as many digits as the scale says.
pub open spec fn decimal_text(mantissa: int, scale: nat, negative: bool) -> Seq<char> {
    let sign = if negative {
        seq!['-']
    } else {
        Seq::empty()
    };
    let whole = digits((magnitude(mantissa) as int / pow10(scale)) as nat);
    let fraction = if scale > 0 {
        seq!['.'] + padded((magnitude(mantissa) as int % pow10(scale)) as nat, scale)
    } else {
        Seq::empty()
    };
    sign + (whole + fraction)
}

pub proof fn lemma_digits_shape(n: nat)
    ensures
        digits(n).len() > 0,
        n >= 10 ==> digits(n).len() > 1,
        forall|i: int| 0 <= i < digits(n).len() ==> is_digit(#[trigger] digits(n)[i]),
    decreases n,
{
    if n >= 10 {
        lemma_digits_shape(n / 10);
    }
}

proof fn lemma_padded_shape(n: nat, width: nat)
    ensures
        padded(n, width).len() == width,
        forall|i: int| 0 <= i < width ==> is_digit(#[trigger] padded(n, width)[i]),
    decreases width,
{
    if width > 0 {
        lemma_padded_shape(n / 10, (width - 1) as nat);
    }
}

/// Two numbers are not written alike.
pub proof fn lemma_digits_differ(a: nat, b: nat)
    requires
        digits(a) == digits(b),
    ensures
        a == b,
    decreases a,
{
    lemma_digits_shape(a);
    lemma_digits_shape(b);
    assert(digits(a).last() == digits(b).last());
    assert(digits(a).last() as int == 48 + a % 10);
    assert(digits(b).last() as int == 48 + b % 10);
    if a >= 10 {
        assert(digits(a).drop_last() =~= digits(a / 10));
        assert(digits(b).drop_last() =~= digits(b / 10));
        lemma_digits_differ(a / 10, b / 10);
    }
}

proof fn lemma_padded_differ(a: nat, b: nat, width: nat)
    requires
        padded(a, width) == padded(b, width),
        a < pow10(width),
        b < pow10(width),
    ensures
        a == b,
    decreases width,
{
    if width > 0 {
        let w = (width - 1) as nat;
        assert(padded(a, width).last() == padded(b, width).last());
        assert(padded(a, width).last() as int == 48 + a % 10);
        assert(padded(b, width).last() as int == 48 + b % 10);
        assert(padded(a, width).drop_last() =~= padded(a / 10, w));
        assert(padded(b, width).drop_last() =~= padded(b / 10, w));
        lemma_padded_differ(a / 10, b / 10, w);
    }
}

proof fn lemma_digits_length(n: nat, k: nat)
    requires
        n < pow10(k),
        k > 0,
    ensures
        digits(n).len() <= k,
    decreases k,
{
    if n >= 10 {
        if k == 1 {
            assert(pow10(1) == 10) by {
                reveal_with_fuel(pow10, 2);
            }
        }
        lemma_digits_length(n / 10, (k - 1) as nat);
    }
}

/// The text of a decimal is short, and plain ASCII.
pub proof fn lemma_decimal_text_shape(mantissa: int, scale: nat, negative: bool)
    requires
        valid_parts(mantissa, scale as int),
    ensures
        decimal_text(mantissa, scale, negative).len() <= 64,
        forall|i: int|
            0 <= i < decimal_text(mantissa, scale, negative).len() ==> is_ascii_char(
                #[trigger] decimal_text(mantissa, scale, negative)[i],
            ),
{
    let whole = (magnitude(mantissa) as int / pow10(scale)) as nat;
    let fraction = (magnitude(mantissa) as int % pow10(scale)) as nat;
    lemma_pow10_positive(scale);
    let m = magnitude(mantissa) as int;
    let p = pow10(scale);
    assert(0 <= m / p <= m) by (nonlinear_arith)
        requires
            m >= 0,
            p > 0,
    ;
    assert(MAX_MANTISSA < pow10(29)) by {
        reveal_with_fuel(pow10, 30);
    }
    lemma_digits_length(whole, 29);
    lemma_digits_shape(whole);
    lemma_padded_shape(fraction, scale);
    let body = digits(whole) + (if scale > 0 {
        seq!['.'] + padded(fraction, scale)
    } else {
        Seq::empty()
    });
    assert forall|i: int| 0 <= i < body.len() implies is_ascii_char(#[trigger] body[i]) by {
        if i < digits(whole).len() {
            assert(is_digit(digits(whole)[i]));
        } else if i > digits(whole).len() {
            assert(body[i] == padded(fraction, scale)[i - digits(whole).len() - 1]);
        }
    }
    let text = decimal_text(mantissa, scale, negative);
    assert forall|i: int| 0 <= i < text.len() implies is_ascii_char(#[trigger] text[i]) by {
        let skip = text.len() - body.len();
        if i >= skip {
            assert(text[i] == body[i - skip]);
        }
    }
}

/// The text without the sign.
spec fn unsigned_text(n: nat, scale: nat) -> Seq<char> {
    digits((n as int / pow10(scale)) as nat) + (if scale > 0 {
        seq!['.'] + padded((n as int % pow10(scale)) as nat, scale)
    } else {
        Seq::empty()
    })
}

/// Only the digits behind the point are as many as the scale says.
proof fn lemma_scale_shows(a: nat, ascale: nat, b: nat, bscale: nat)
    requires
        unsigned_text(a, ascale) == unsigned_text(b, bscale),
    ensures
        ascale >= bscale,
{
    let t = unsigned_text(a, ascale);
    let aw = (a as int / pow10(ascale)) as nat;
    let bw = (b as int / pow10(bscale)) as nat;
    let af = (a as int % pow10(ascale)) as nat;
    lemma_digits_shape(aw);
    lemma_digits_shape(bw);
    lemma_padded_shape(af, ascale);
    lemma_padded_shape((b as int % pow10(bscale)) as nat, bscale);
    if ascale < bscale {
        let at = t.len() - bscale - 1;
        assert(unsigned_text(b, bscale)[at] == '.');
        assert(t[at] == digits(aw)[at]);
        assert(is_digit(digits(aw)[at]));
    }
}

/// Two decimals are not written alike: the text shows both parts and the sign.
pub proof fn lemma_decimal_text_differs(
    am: int,
    ascale: nat,
    aneg: bool,
    bm: int,
    bscale: nat,
    bneg: bool,
)
    requires
        decimal_text(am, ascale, aneg) == decimal_text(bm, bscale, bneg),
        valid_sign(am, aneg),
        valid_sign(bm, bneg),
    ensures
        am == bm,
        ascale == bscale,
        aneg == bneg,
{
    let (a, b) = (magnitude(am), magnitude(bm));
    let (s, t) = (decimal_text(am, ascale, aneg), decimal_text(bm, bscale, bneg));
    let aw = (a as int / pow10(ascale)) as nat;
    let bw = (b as int / pow10(bscale)) as nat;
    lemma_digits_shape(aw);
    lemma_digits_shape(bw);
    assert(!aneg ==> s[0] == digits(aw)[0]);
    assert(!bneg ==> t[0] == digits(bw)[0]);
    assert(aneg == bneg);
    let skip = if aneg {
        1int
    } else {
        0
    };
    assert(s.skip(skip) =~= unsigned_text(a, ascale));
    assert(t.skip(skip) =~= unsigned_text(b, bscale));
    lemma_scale_shows(a, ascale, b, bscale);
    lemma_scale_shows(b, bscale, a, ascale);
    let af = (a as int % pow10(ascale)) as nat;
    let bf = (b as int % pow10(bscale)) as nat;
    lemma_padded_shape(af, ascale);
    lemma_padded_shape(bf, bscale);
    let u = unsigned_text(a, ascale);
    let n = digits(aw).len() as int;
    assert(n == digits(bw).len());
    assert(digits(aw) =~= u.take(n));
    assert(digits(bw) =~= unsigned_text(b, bscale).take(n));
    lemma_digits_differ(aw, bw);
    lemma_pow10_positive(ascale);
    let p = pow10(ascale);
    if ascale > 0 {
        assert(padded(af, ascale) =~= u.skip(n + 1));
        assert(padded(bf, bscale) =~= unsigned_text(b, bscale).skip(n + 1));
        lemma_padded_differ(af, bf, ascale);
    } else {
        assert(p == 1);
    }
    vstd::arithmetic::div_mod::lemma_fundamental_div_mod(a as int, p);
    vstd::arithmetic::div_mod::lemma_fundamental_div_mod(b as int, p);
}

/// The text of one digit.
fn digit_text(d: u64) -> (r: &'static str)
    requires
        d < 10,
    ensures
        r@ == seq![digit(d as int)],
{
    proof {
        reveal_strlit("0");
        reveal_strlit("1");
        reveal_strlit("2");
        reveal_strlit("3");
        reveal_strlit("4");
        reveal_strlit("5");
        reveal_strlit("6");
        reveal_strlit("7");
        reveal_strlit("8");
        reveal_strlit("9");
    }
    let r = match d {
        0 => "0",
        1 => "1",
        2 => "2",
        3 => "3",
        4 => "4",
        5 => "5",
        6 => "6",
        7 => "7",
        8 => "8",
        _ => "9",
    };
    assert(r@ =~= seq![digit(d as int)]);
    r
}

/// A number in decimal notation.
pub fn number_text(n: u64) -> (r: String)
    ensures
        r@ == digits(n as nat),
    decreases n,
{
    if n < 10 {
        String::from_str(digit_text(n))
    } else {
        let mut text = number_text(n / 10);
        text.append(digit_text(n % 10));
        assert(text@ =~= digits(n as nat));
        text
    }
}

impl UserID {
    /// The number of the user in decimal notation.
    pub fn to_string(&self) -> (r: String)
        ensures
            r@ == digits(self.0 as nat),
    {
        number_text(self.0)
    }
}

/// The characters of some text.
pub(crate) fn chars_of(text: &str) -> (r: Vec<char>)
    ensures
        r@ == text@,
{
    broadcast use vstd::string::axiom_spec_iter;

    let mut out: Vec<char> = Vec::new();
    let iter = text.chars();
    let ghost all = iter.remaining();
    for c in it: iter
        invariant
            it.seq() == all,
            out@ == all.take(it.index() as int),
    {
        out.push(c);
        assert(out@ =~= all.take(it.index() + 1));
    }
    assert(out@ =~= text@);
    out
}

/// The number that some digits note.
pub open spec fn digits_value(t: Seq<char>) -> nat
    decreases t.len(),
{
    if t.len() == 0 {
        0
    } else {
        (10 * digits_value(t.drop_last()) + (t.last() as int - 48)) as nat
    }
}

pub open spec fn all_digits(t: Seq<char>) -> bool {
    forall|i: int| 0 <= i < t.len() ==> is_digit(#[trigger] t[i])
}

/// The number of 32 bits that some text notes: digits, at least one, which a plus
/// sign may precede; none for other text or where the number is too large.
pub open spec fn parsed_u32(t: Seq<char>) -> Option<u32> {
    let body = if t.len() > 0 && t[0] == '+' {
        t.drop_first()
    } else {
        t
    };
    if body.len() > 0 && all_digits(body) && digits_value(body) <= u32::MAX {
        Some(digits_value(body) as u32)
    } else {
        None
    }
}

/// Longer digits note no smaller number.
proof fn lemma_digits_value_grows(t: Seq<char>, n: int)
    requires
        all_digits(t),
        0 <= n <= t.len(),
    ensures
        digits_value(t.take(n)) <= digits_value(t),
    decreases t.len() - n,
{
    if n < t.len() {
        lemma_digits_value_grows(t, n + 1);
        assert(t.take(n + 1).drop_last() =~= t.take(n));
        assert(is_digit(t[n]));
    } else {
        assert(t.take(n) =~= t);
    }
}

/// Reads a number of 32 bits.
pub(crate) fn parse_u32(text: &[char]) -> (r: Option<u32>)
    ensures
        r == parsed_u32(text@),
{
    let start: usize = if text.len() > 0 && text[0] == '+' {
        1
    } else {
        0
    };
    let ghost body = text@.skip(start as int);
    proof {
        if start == 0 {
            assert(body =~= text@);
        } else {
            assert(body =~= text@.drop_first());
        }
    }
    if start == text.len() {
        return None;
    }
    let mut value: u32 = 0;
    let mut i: usize = start;
    while i < text.len()
        invariant
            start <= i <= text@.len(),
            body == text@.skip(start as int),
            all_digits(body.take(i - start)),
            value == digits_value(body.take(i - start)),
            parsed_u32(text@) == if body.len() > 0 && all_digits(body) && digits_value(body)
                <= u32::MAX {
                Some(digits_value(body) as u32)
            } else {
                None
            },
        decreases text@.len() - i,
    {
        let c = text[i];
        assert(c == body[i - start]);
        let d: u32 = match digit_value(c) {
            Some(d) => d,
            None => {
                assert(!is_digit(body[i - start]));
                return None;
            },
        };
        proof {
            let more = body.take(i - start + 1);
            assert(more.drop_last() =~= body.take(i - start));
            assert(more.last() == c);
            assert forall|j: int| 0 <= j < more.len() implies is_digit(#[trigger] more[j]) by {
                if j < i - start {
                    assert(more[j] == body.take(i - start)[j]);
                }
            }
            if all_digits(body) {
                lemma_digits_value_grows(body, i - start + 1);
            }
        }
        if value > (u32::MAX - d) / 10 {
            return None;
        }
        value = 10 * value + d;
        i += 1;
    }
    assert(body.take(i - start) =~= body);
    Some(value)
}

/// The value of a digit.
fn digit_value(c: char) -> (r: Option<u32>)
    ensures
        match r {
            Some(d) => is_digit(c) && d == c as int - 48,
            None => !is_digit(c),
        },
{
    let n: u32 = c as u32;
    if 48 <= n && n <= 57 {
        Some(n - 48)
    } else {
        None
    }
}

/// A number of 32 bits comes back out of its decimal notation.
pub proof fn law_number_back(n: u32)
    ensures
        parsed_u32(digits(n as nat)) == Some(n),
{
    lemma_digits_shape(n as nat);
    lemma_digits_value_back(n as nat);
    assert(is_digit(digits(n as nat)[0]));
}

pub proof fn lemma_digits_value_back(n: nat)
    ensures
        digits_value(digits(n)) == n,
    decreases n,
{
    let t = digits(n);
    if n < 10 {
        assert(t.drop_last() =~= Seq::<char>::empty());
        assert(t.last() as int == 48 + n);
        assert(digits_value(Seq::<char>::empty()) == 0);
    } else {
        assert(t.drop_last() =~= digits(n / 10));
        assert(t.last() as int == 48 + n % 10);
        lemma_digits_value_back(n / 10);
    }
}

} // verus!
