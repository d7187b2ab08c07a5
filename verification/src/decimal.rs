//! Fixed-point decimal amounts.
//!
//! A [`Decimal`] is a signed mantissa of at most 96 bits together with a scale
//! between 0 and 28; it stands for `mantissa / 10^scale`. Amounts are compared
//! by the number they stand for, so `1.0` and `1.00` are equal although their
//! parts differ. Arithmetic is carried out by the `rust_decimal` crate.
use vstd::prelude::*;

verus! {

/// The largest scale a decimal can have.
pub const MAX_SCALE: u32 = 28;

/// The largest mantissa a decimal can have: `2^96 - 1`.
pub const MAX_MANTISSA: i128 = 79228162514264337593543950335;

/// The powers of ten.
pub open spec fn pow10(n: nat) -> int
    decreases n,
{
    if n == 0 {
        1
    } else {
        10 * pow10((n - 1) as nat)
    }
}

pub proof fn lemma_pow10_positive(n: nat)
    ensures
        pow10(n) > 0,
    decreases n,
{
    if n > 0 {
        lemma_pow10_positive((n - 1) as nat);
    }
}

pub proof fn lemma_pow10_adds(a: nat, b: nat)
    ensures
        pow10(a + b) == pow10(a) * pow10(b),
    decreases a,
{
    if a > 0 {
        lemma_pow10_adds((a - 1) as nat, b);
        assert((a + b - 1) as nat == (a - 1) as nat + b);
        assert(10 * (pow10((a - 1) as nat) * pow10(b)) == (10 * pow10((a - 1) as nat)) * pow10(b))
            by (nonlinear_arith);
    }
}

/// The parts that a decimal can be made of. A zero carries no sign.
pub open spec fn valid_parts(mantissa: int, scale: int) -> bool {
    &&& -MAX_MANTISSA <= mantissa <= MAX_MANTISSA
    &&& 0 <= scale <= MAX_SCALE
}

/// The number that the parts stand for, counted in units of `10^-28`.
pub open spec fn parts_value(mantissa: int, scale: int) -> int {
    mantissa * pow10((MAX_SCALE - scale) as nat)
}

/// A mantissa carried over from one scale to a larger one.
pub open spec fn rescaled(mantissa: int, from: int, to: int) -> int {
    mantissa * pow10((to - from) as nat)
}

/// Carrying a mantissa over to a larger scale does not change the number.
pub proof fn lemma_rescaled_value(mantissa: int, from: int, to: int)
    requires
        0 <= from <= to <= MAX_SCALE,
    ensures
        parts_value(rescaled(mantissa, from, to), to) == parts_value(mantissa, from),
{
    lemma_pow10_adds((to - from) as nat, (MAX_SCALE - to) as nat);
    assert((to - from) as nat + (MAX_SCALE - to) as nat == (MAX_SCALE - from) as nat);
    let p = pow10((to - from) as nat);
    let q = pow10((MAX_SCALE - to) as nat);
    assert((mantissa * p) * q == mantissa * (p * q)) by (nonlinear_arith);
}

/// At one scale, the sign and order of numbers are those of their mantissas.
pub proof fn lemma_value_order(a: int, b: int, scale: int)
    requires
        0 <= scale <= MAX_SCALE,
    ensures
        a < b <==> parts_value(a, scale) < parts_value(b, scale),
        a == b <==> parts_value(a, scale) == parts_value(b, scale),
        parts_value(0, scale) == 0,
{
    let p = pow10((MAX_SCALE - scale) as nat);
    lemma_pow10_positive((MAX_SCALE - scale) as nat);
    if a < b {
        assert(a * p < b * p) by (nonlinear_arith)
            requires
                a < b,
                p > 0,
        ;
    } else if b < a {
        assert(b * p < a * p) by (nonlinear_arith)
            requires
                b < a,
                p > 0,
        ;
    }
}

/// At one scale, mantissas add up as the numbers do.
pub proof fn lemma_value_adds(a: int, b: int, scale: int)
    ensures
        parts_value(a + b, scale) == parts_value(a, scale) + parts_value(b, scale),
        parts_value(a - b, scale) == parts_value(a, scale) - parts_value(b, scale),
{
    let p = pow10((MAX_SCALE - scale) as nat);
    assert((a + b) * p == a * p + b * p) by (nonlinear_arith);
    assert((a - b) * p == a * p - b * p) by (nonlinear_arith);
}

pub open spec fn larger(a: int, b: int) -> int {
    if a < b {
        b
    } else {
        a
    }
}

/// The result of `Decimal::checked_add` on two non-zero amounts whose exact sum
/// has more than 96 bits at the larger of the two scales.
pub uninterp spec fn rounded_sum(am: int, ascale: int, bm: int, bscale: int) -> Option<(int, int)>;

/// The result of `Decimal::checked_sub` on two non-zero amounts whose exact
/// difference has more than 96 bits at the larger of the two scales.
pub uninterp spec fn rounded_difference(am: int, ascale: int, bm: int, bscale: int) -> Option<(int, int)>;

/// The result of `Decimal::checked_mul` on two non-zero amounts whose exact
/// product has more than 96 bits or a scale above 28, with its sign: where it is
/// zero it may bear the sign of the product.
pub uninterp spec fn rounded_product(am: int, ascale: int, bm: int, bscale: int) -> Option<(int, int, bool)>;

/// The result of `Decimal::checked_div` on two amounts.
pub uninterp spec fn quotient_of(am: int, ascale: int, bm: int, bscale: int) -> Option<(int, int)>;

/// Whether a sign goes with a mantissa. A number other than zero has its own; a
/// zero may have either.
pub open spec fn valid_sign(m: int, negative: bool) -> bool {
    (m < 0 ==> negative) && (m > 0 ==> !negative)
}

/// Parts with a sign, which a zero does not bear.
pub open spec fn plain(p: (int, int)) -> (int, int, bool) {
    (p.0, p.1, p.0 < 0)
}

/// A rounded result that is itself a decimal.
pub open spec fn usable(rounded: Option<(int, int)>) -> Option<(int, int)> {
    if rounded matches Some((m, s)) && valid_parts(m, s) {
        rounded
    } else {
        None
    }
}

/// A rounded result that is itself a decimal, with its sign.
pub open spec fn usable_signed(rounded: Option<(int, int, bool)>) -> Option<(int, int, bool)> {
    if rounded matches Some((m, s, negative)) && valid_parts(m, s) && valid_sign(m, negative) {
        rounded
    } else {
        None
    }
}

/// A rounded result that is itself a decimal; it is no zero with a sign.
pub open spec fn usable_plain(rounded: Option<(int, int)>) -> Option<(int, int, bool)> {
    match usable(rounded) {
        Some(p) => Some(plain(p)),
        None => None,
    }
}

/// The parts of a sum, given what is returned for one that does not fit exactly;
/// `None` where it overflows. Added to zero, an amount stays what it is.
pub open spec fn sum_parts(
    a: (int, int, bool),
    b: (int, int, bool),
    rounded: Option<(int, int)>,
) -> Option<(int, int, bool)> {
    let scale = larger(a.1, b.1);
    let exact = rescaled(a.0, a.1, scale) + rescaled(b.0, b.1, scale);
    if a.0 == 0 {
        Some(b)
    } else if b.0 == 0 {
        Some(a)
    } else if -MAX_MANTISSA <= exact <= MAX_MANTISSA {
        Some(plain((exact, scale)))
    } else {
        usable_plain(rounded)
    }
}

/// The parts of a difference, given what is returned for one that does not fit
/// exactly; `None` where it overflows. Of two zeros the second is the difference.
pub open spec fn difference_parts(
    a: (int, int, bool),
    b: (int, int, bool),
    rounded: Option<(int, int)>,
) -> Option<(int, int, bool)> {
    let scale = larger(a.1, b.1);
    let exact = rescaled(a.0, a.1, scale) - rescaled(b.0, b.1, scale);
    if a.0 == 0 && b.0 == 0 {
        Some(b)
    } else if a.0 == 0 {
        Some(plain((-b.0, b.1)))
    } else if b.0 == 0 {
        Some(a)
    } else if -MAX_MANTISSA <= exact <= MAX_MANTISSA {
        Some(plain((exact, scale)))
    } else {
        usable_plain(rounded)
    }
}

/// The parts of a product, given what is returned for one that does not fit
/// exactly; `None` where it overflows.
pub open spec fn product_parts(
    am: int,
    ascale: int,
    bm: int,
    bscale: int,
    rounded: Option<(int, int, bool)>,
) -> Option<(int, int, bool)> {
    if am == 0 || bm == 0 {
        Some(plain((0, 0)))
    } else if -MAX_MANTISSA <= am * bm <= MAX_MANTISSA && ascale + bscale <= MAX_SCALE {
        Some(plain((am * bm, ascale + bscale)))
    } else {
        usable_signed(rounded)
    }
}

/// What a checked operation returned, as mathematical parts.
pub open spec fn returned_parts(r: Option<(i128, u32)>) -> Option<(int, int)> {
    match r {
        Some((m, s)) => Some((m as int, s as int)),
        None => None,
    }
}

/// What a checked operation returned, as mathematical parts with the sign.
pub open spec fn returned_signed(r: Option<(i128, u32, bool)>) -> Option<(int, int, bool)> {
    match r {
        Some((m, s, negative)) => Some((m as int, s as int, negative)),
        None => None,
    }
}

/// Calls `<` on two `rust_decimal` decimals, which compares the numbers that
/// they stand for, whatever their scales. The sign of a zero makes no difference.
#[verifier::external_body]
fn parts_less(am: i128, ascale: u32, bm: i128, bscale: u32) -> (r: bool)
    requires
        valid_parts(am as int, ascale as int),
        valid_parts(bm as int, bscale as int),
    ensures
        r == (parts_value(am as int, ascale as int) < parts_value(bm as int, bscale as int)),
{
    rust_decimal::Decimal::from_i128_with_scale(am, ascale)
        < rust_decimal::Decimal::from_i128_with_scale(bm, bscale)
}

/// Calls `rust_decimal`'s `Decimal::checked_add`: a zero operand gives back the
/// other one, as it is; a sum that fits in 96 bits at the larger scale is exact and
/// has that scale; any other sum is named. Of two operands that are not zero the sum
/// is no zero with a sign.
#[verifier::external_body]
fn parts_add(am: i128, ascale: u32, aneg: bool, bm: i128, bscale: u32, bneg: bool) -> (r: Option<
    (i128, u32, bool),
>)
    requires
        valid_parts(am as int, ascale as int) && valid_sign(am as int, aneg),
        valid_parts(bm as int, bscale as int) && valid_sign(bm as int, bneg),
    ensures
        returned_signed(r) == sum_parts(
            (am as int, ascale as int, aneg),
            (bm as int, bscale as int, bneg),
            rounded_sum(am as int, ascale as int, bm as int, bscale as int),
        ),
        r matches Some((m, s, negative)) ==> valid_parts(m as int, s as int) && valid_sign(
            m as int,
            negative,
        ),
{
    let mut a = rust_decimal::Decimal::from_i128_with_scale(am, ascale);
    a.set_sign_negative(aneg);
    let mut b = rust_decimal::Decimal::from_i128_with_scale(bm, bscale);
    b.set_sign_negative(bneg);
    a.checked_add(b).map(|d| (d.mantissa(), d.scale(), d.is_sign_negative()))
}

/// Calls `rust_decimal`'s `Decimal::checked_sub`: where the second operand is zero
/// it gives back the first; where the first is zero, the second, with its sign turned
/// unless it is zero too; a difference that fits in 96 bits at the larger scale is
/// exact and has that scale; any other is named. Of two operands that are not zero
/// the difference is no zero with a sign.
/// Taking a smaller positive amount from a larger one never overflows, and what
/// is left, rounded or not, is positive and no more than there was: the
/// difference fits once the digits below the larger amount's own scale are
/// rounded away, and the larger amount is itself a number of that scale.
#[verifier::external_body]
fn parts_sub(am: i128, ascale: u32, aneg: bool, bm: i128, bscale: u32, bneg: bool) -> (r: Option<
    (i128, u32, bool),
>)
    requires
        valid_parts(am as int, ascale as int) && valid_sign(am as int, aneg),
        valid_parts(bm as int, bscale as int) && valid_sign(bm as int, bneg),
    ensures
        returned_signed(r) == difference_parts(
            (am as int, ascale as int, aneg),
            (bm as int, bscale as int, bneg),
            rounded_difference(am as int, ascale as int, bm as int, bscale as int),
        ),
        r matches Some((m, s, negative)) ==> valid_parts(m as int, s as int) && valid_sign(
            m as int,
            negative,
        ),
        r is Some || !(0 < parts_value(bm as int, bscale as int) < parts_value(
            am as int,
            ascale as int,
        )),
        r matches Some((m, s, _)) ==> (0 < parts_value(bm as int, bscale as int) < parts_value(
            am as int,
            ascale as int,
        ) ==> 0 < parts_value(m as int, s as int) <= parts_value(am as int, ascale as int)),
{
    let mut a = rust_decimal::Decimal::from_i128_with_scale(am, ascale);
    a.set_sign_negative(aneg);
    let mut b = rust_decimal::Decimal::from_i128_with_scale(bm, bscale);
    b.set_sign_negative(bneg);
    a.checked_sub(b).map(|d| (d.mantissa(), d.scale(), d.is_sign_negative()))
}

/// Calls `rust_decimal`'s `Decimal::checked_mul`: a zero operand gives the plain
/// zero; a product that fits in 96 bits with a scale of at most 28 is exact, with
/// the scales added up; any other product is named. One that is rounded to zero may
/// bear a minus sign.
#[verifier::external_body]
fn parts_mul(am: i128, ascale: u32, aneg: bool, bm: i128, bscale: u32, bneg: bool) -> (r: Option<
    (i128, u32, bool),
>)
    requires
        valid_parts(am as int, ascale as int) && valid_sign(am as int, aneg),
        valid_parts(bm as int, bscale as int) && valid_sign(bm as int, bneg),
    ensures
        returned_signed(r) == product_parts(
            am as int,
            ascale as int,
            bm as int,
            bscale as int,
            rounded_product(am as int, ascale as int, bm as int, bscale as int),
        ),
        r matches Some((m, s, negative)) ==> valid_parts(m as int, s as int) && valid_sign(
            m as int,
            negative,
        ),
{
    let mut a = rust_decimal::Decimal::from_i128_with_scale(am, ascale);
    a.set_sign_negative(aneg);
    let mut b = rust_decimal::Decimal::from_i128_with_scale(bm, bscale);
    b.set_sign_negative(bneg);
    a.checked_mul(b).map(|d| (d.mantissa(), d.scale(), d.is_sign_negative()))
}

/// Calls `rust_decimal`'s `Decimal::checked_div`: there is no quotient by zero; any
/// other is named. The sign of a zero makes no difference, and a quotient is no zero
/// with a sign.
#[verifier::external_body]
fn parts_div(am: i128, ascale: u32, bm: i128, bscale: u32) -> (r: Option<(i128, u32)>)
    requires
        valid_parts(am as int, ascale as int),
        valid_parts(bm as int, bscale as int),
    ensures
        returned_parts(r) == (if bm == 0 {
            None
        } else {
            usable(quotient_of(am as int, ascale as int, bm as int, bscale as int))
        }),
        r matches Some((m, s)) ==> valid_parts(m as int, s as int),
{
    let a = rust_decimal::Decimal::from_i128_with_scale(am, ascale);
    let b = rust_decimal::Decimal::from_i128_with_scale(bm, bscale);
    a.checked_div(b).map(|d| (d.mantissa(), d.scale()))
}

/// A fixed-point decimal amount. A zero may bear a minus sign, which shows where the
/// amount is written and nowhere else.
#[derive(Debug, Clone, Copy)]
pub struct Decimal {
    mantissa: i128,
    scale: u32,
    negative: bool,
}

impl Decimal {
    #[verifier::type_invariant]
    spec fn representable(self) -> bool {
        valid_parts(self.mantissa as int, self.scale as int) && valid_sign(
            self.mantissa as int,
            self.negative,
        )
    }

    pub closed spec fn spec_mantissa(&self) -> i128 {
        self.mantissa
    }

    pub closed spec fn spec_scale(&self) -> u32 {
        self.scale
    }

    /// Whether the amount has a minus sign.
    pub closed spec fn spec_negative(&self) -> bool {
        self.negative
    }

    /// Whether the parts are those of an amount that can exist.
    pub open spec fn valid(self) -> bool {
        valid_parts(self.spec_mantissa() as int, self.spec_scale() as int) && valid_sign(
            self.spec_mantissa() as int,
            self.spec_negative(),
        )
    }

    /// Whether the amount can exist and is read back as it was written: it is anything
    /// but a zero with a minus sign.
    pub open spec fn reads_back(self) -> bool {
        self.valid() && self.spec_negative() == (self.spec_mantissa() < 0)
    }

    /// The number that the amount stands for, counted in units of `10^-28`.
    pub open spec fn value(self) -> int {
        parts_value(self.spec_mantissa() as int, self.spec_scale() as int)
    }

    pub open spec fn parts(self) -> (int, int) {
        (self.spec_mantissa() as int, self.spec_scale() as int)
    }

    /// The amount as it is read once it was written: a zero is read without its sign.
    pub open spec fn as_read(self) -> Decimal {
        Decimal::of(self.parts())
    }

    pub open spec fn signed_parts(self) -> (int, int, bool) {
        (self.spec_mantissa() as int, self.spec_scale() as int, self.spec_negative())
    }

    /// The amount with the given parts and sign.
    pub closed spec fn of_signed(parts: (int, int, bool)) -> Decimal {
        Decimal { mantissa: parts.0 as i128, scale: parts.1 as u32, negative: parts.2 }
    }

    /// The amount with the given parts; a zero has no sign.
    pub open spec fn of(parts: (int, int)) -> Decimal {
        Decimal::of_signed(plain(parts))
    }

    /// The zero with no fraction digits.
    pub open spec fn nil() -> Decimal {
        Decimal::of((0, 0))
    }

    /// The sum; `None` where it overflows.
    pub open spec fn plus(self, other: Decimal) -> Option<Decimal> {
        let (am, ascale) = self.parts();
        let (bm, bscale) = other.parts();
        let rounded = rounded_sum(am, ascale, bm, bscale);
        match sum_parts(self.signed_parts(), other.signed_parts(), rounded) {
            Some(p) => Some(Decimal::of_signed(p)),
            None => None,
        }
    }

    /// The difference; `None` where it overflows.
    pub open spec fn minus(self, other: Decimal) -> Option<Decimal> {
        let (am, ascale) = self.parts();
        let (bm, bscale) = other.parts();
        let rounded = rounded_difference(am, ascale, bm, bscale);
        match difference_parts(self.signed_parts(), other.signed_parts(), rounded) {
            Some(p) => Some(Decimal::of_signed(p)),
            None => None,
        }
    }

    /// The product; `None` where it overflows.
    pub open spec fn times(self, other: Decimal) -> Option<Decimal> {
        let (am, ascale) = self.parts();
        let (bm, bscale) = other.parts();
        match product_parts(am, ascale, bm, bscale, rounded_product(am, ascale, bm, bscale)) {
            Some(p) => Some(Decimal::of_signed(p)),
            None => None,
        }
    }

    /// The quotient; `None` where it overflows or the divisor is zero.
    pub open spec fn over(self, other: Decimal) -> Option<Decimal> {
        let (am, ascale) = self.parts();
        let (bm, bscale) = other.parts();
        if bm == 0 {
            None
        } else {
            match usable(quotient_of(am, ascale, bm, bscale)) {
                Some(p) => Some(Decimal::of(p)),
                None => None,
            }
        }
    }

    /// Parts and sign determine the amount, and all valid ones are those of one.
    pub broadcast proof fn lemma_of_signed(parts: (int, int, bool))
        requires
            valid_parts(parts.0, parts.1),
        ensures
            (#[trigger] Decimal::of_signed(parts)).spec_mantissa() == parts.0,
            Decimal::of_signed(parts).spec_scale() == parts.1,
            Decimal::of_signed(parts).spec_negative() == parts.2,
    {
    }

    /// Parts determine the amount but for the sign of a zero.
    pub proof fn lemma_of(parts: (int, int))
        requires
            valid_parts(parts.0, parts.1),
        ensures
            Decimal::of(parts).spec_mantissa() == parts.0,
            Decimal::of(parts).spec_scale() == parts.1,
            Decimal::of(parts).spec_negative() == (parts.0 < 0),
            Decimal::of(parts).valid(),
    {
    }

    /// Writing and reading an amount keeps the number, and the amount itself unless it
    /// is a zero with a minus sign.
    pub proof fn lemma_as_read(d: Decimal)
        requires
            d.valid(),
        ensures
            d.as_read().reads_back(),
            d.as_read().value() == d.value(),
            d.reads_back() ==> d.as_read() == d,
    {
        Decimal::lemma_of(d.parts());
        if d.reads_back() {
            Decimal::lemma_parts_determine(d, d.as_read());
        }
    }

    /// Results of arithmetic are made of valid parts.
    pub proof fn lemma_results_valid(a: Decimal, b: Decimal)
        requires
            a.valid(),
            b.valid(),
        ensures
            a.plus(b) matches Some(d) ==> d.valid(),
            a.minus(b) matches Some(d) ==> d.valid(),
            a.times(b) matches Some(d) ==> d.valid(),
            Decimal::nil().valid(),
            Decimal::nil().value() == 0,
    {
        broadcast use Decimal::lemma_of_signed;

        assert(valid_parts(0, 0));
        assert(parts_value(0, 0) == 0);
    }

    /// Whether the difference of the two amounts fits without rounding.
    pub open spec fn exact_minus(self, other: Decimal) -> bool {
        let (am, ascale) = self.parts();
        let (bm, bscale) = other.parts();
        let scale = larger(ascale, bscale);
        am == 0 || bm == 0 || -MAX_MANTISSA <= rescaled(am, ascale, scale) - rescaled(
            bm,
            bscale,
            scale,
        ) <= MAX_MANTISSA
    }

    /// Whether the sum of the two amounts fits without rounding.
    pub open spec fn exact_plus(self, other: Decimal) -> bool {
        let (am, ascale) = self.parts();
        let (bm, bscale) = other.parts();
        let scale = larger(ascale, bscale);
        am == 0 || bm == 0 || -MAX_MANTISSA <= rescaled(am, ascale, scale) + rescaled(
            bm,
            bscale,
            scale,
        ) <= MAX_MANTISSA
    }

    /// A difference that fits is the exact one.
    pub proof fn law_exact_difference(a: Decimal, b: Decimal)
        requires
            a.valid(),
            b.valid(),
            a.exact_minus(b),
        ensures
            a.minus(b) matches Some(d) && d.valid() && d.value() == a.value() - b.value(),
    {
        let (am, ascale) = a.parts();
        let (bm, bscale) = b.parts();
        let scale = larger(ascale, bscale);
        let (x, y) = (rescaled(am, ascale, scale), rescaled(bm, bscale, scale));
        lemma_rescaled_value(am, ascale, scale);
        lemma_rescaled_value(bm, bscale, scale);
        lemma_value_adds(x, y, scale);
        lemma_value_order(0, am, ascale);
        lemma_value_order(0, bm, bscale);
        lemma_value_adds(0, bm, bscale);
        Decimal::lemma_of((-bm, bscale));
        Decimal::lemma_of_signed(a.signed_parts());
        Decimal::lemma_of_signed(b.signed_parts());
        if am != 0 && bm != 0 {
            Decimal::lemma_of((x - y, scale));
        }
    }

    /// A sum that fits is the exact one.
    pub proof fn law_exact_sum(a: Decimal, b: Decimal)
        requires
            a.valid(),
            b.valid(),
            a.exact_plus(b),
        ensures
            a.plus(b) matches Some(d) && d.valid() && d.value() == a.value() + b.value(),
    {
        let (am, ascale) = a.parts();
        let (bm, bscale) = b.parts();
        let scale = larger(ascale, bscale);
        let (x, y) = (rescaled(am, ascale, scale), rescaled(bm, bscale, scale));
        lemma_rescaled_value(am, ascale, scale);
        lemma_rescaled_value(bm, bscale, scale);
        lemma_value_adds(x, y, scale);
        lemma_value_order(0, am, ascale);
        lemma_value_order(0, bm, bscale);
        Decimal::lemma_of_signed(a.signed_parts());
        Decimal::lemma_of_signed(b.signed_parts());
        if am != 0 && bm != 0 {
            Decimal::lemma_of((x + y, scale));
        }
    }

    /// Whether the product of the two amounts fits without rounding.
    pub open spec fn exact_times(self, other: Decimal) -> bool {
        let (am, ascale) = self.parts();
        let (bm, bscale) = other.parts();
        am == 0 || bm == 0 || (-MAX_MANTISSA <= am * bm <= MAX_MANTISSA && ascale + bscale
            <= MAX_SCALE)
    }

    /// A product that fits is the exact one: counted in units of `10^-56`, it is the
    /// product of the two numbers.
    pub proof fn law_exact_product(a: Decimal, b: Decimal)
        requires
            a.valid(),
            b.valid(),
            a.exact_times(b),
        ensures
            a.times(b) matches Some(d) && d.valid() && d.value() * pow10(MAX_SCALE as nat)
                == a.value() * b.value(),
    {
        let (am, ascale) = a.parts();
        let (bm, bscale) = b.parts();
        lemma_value_order(0, am, ascale);
        lemma_value_order(0, bm, bscale);
        lemma_value_order(0, 0, 0);
        if am == 0 || bm == 0 {
            Decimal::lemma_of((0, 0));
            assert(a.value() * b.value() == 0) by (nonlinear_arith)
                requires
                    a.value() == 0 || b.value() == 0,
            ;
        } else {
            Decimal::lemma_of((am * bm, ascale + bscale));
            let n = MAX_SCALE as int;
            let (p, q) = (pow10((n - ascale) as nat), pow10((n - bscale) as nat));
            let (r, t) = (pow10((n - ascale - bscale) as nat), pow10(n as nat));
            lemma_pow10_adds((n - ascale) as nat, (n - bscale) as nat);
            lemma_pow10_adds((n - ascale - bscale) as nat, n as nat);
            assert((n - ascale) as nat + (n - bscale) as nat == (n - ascale - bscale) as nat
                + n as nat);
            assert(((am * bm) * r) * t == (am * p) * (bm * q)) by (nonlinear_arith)
                requires
                    r * t == p * q,
            ;
        }
    }

    /// An amount taken from an equal one, of whatever scale, leaves zero.
    pub proof fn lemma_minus_equal(a: Decimal, b: Decimal)
        requires
            a.valid(),
            b.valid(),
            a.value() == b.value(),
        ensures
            a.minus(b) matches Some(d) && d.value() == 0,
    {
        let (am, ascale) = a.parts();
        let (bm, bscale) = b.parts();
        let scale = larger(ascale, bscale);
        lemma_rescaled_value(am, ascale, scale);
        lemma_rescaled_value(bm, bscale, scale);
        lemma_value_order(rescaled(am, ascale, scale), rescaled(bm, bscale, scale), scale);
        Decimal::law_exact_difference(a, b);
    }

    pub proof fn lemma_parts_determine(a: Decimal, b: Decimal)
        requires
            a.spec_mantissa() == b.spec_mantissa(),
            a.spec_scale() == b.spec_scale(),
            a.spec_negative() == b.spec_negative(),
        ensures
            a == b,
    {
    }

    /// Every amount at run time is made of valid parts.
    pub fn known_valid(&self)
        ensures
            self.valid(),
    {
        proof {
            use_type_invariant(*self);
        }
    }

    /// The amount `num / 10^scale`.
    pub fn new(num: i64, scale: u32) -> (r: Decimal)
        requires
            scale <= MAX_SCALE,
        ensures
            r == Decimal::of((num as int, scale as int)),
            r.spec_mantissa() == num,
            r.spec_scale() == scale,
    {
        Decimal { mantissa: num as i128, scale, negative: num < 0 }
    }

    /// The amount with the given parts, if they are valid. A zero has no sign.
    pub fn from_parts(mantissa: i128, scale: u32) -> (r: Option<Decimal>)
        ensures
            r is Some <==> valid_parts(mantissa as int, scale as int),
            r matches Some(d) ==> d == Decimal::of((mantissa as int, scale as int)),
    {
        if scale <= MAX_SCALE && mantissa <= MAX_MANTISSA && mantissa >= -MAX_MANTISSA {
            Some(Decimal { mantissa, scale, negative: mantissa < 0 })
        } else {
            None
        }
    }

    /// The amount with the given parts and sign, if they are valid and go together.
    pub fn from_signed_parts(mantissa: i128, scale: u32, negative: bool) -> (r: Option<Decimal>)
        ensures
            r is Some <==> valid_parts(mantissa as int, scale as int) && valid_sign(
                mantissa as int,
                negative,
            ),
            r matches Some(d) ==> d == Decimal::of_signed(
                (mantissa as int, scale as int, negative),
            ),
    {
        let fits = scale <= MAX_SCALE && mantissa <= MAX_MANTISSA && mantissa >= -MAX_MANTISSA;
        if fits && (mantissa == 0 || negative == (mantissa < 0)) {
            Some(Decimal { mantissa, scale, negative })
        } else {
            None
        }
    }

    /// The zero with no fraction digits.
    pub fn zero() -> (r: Decimal)
        ensures
            r == Decimal::nil(),
            r.value() == 0,
    {
        assert(parts_value(0, 0) == 0);
        Decimal { mantissa: 0, scale: 0, negative: false }
    }

    #[verifier::when_used_as_spec(spec_mantissa)]
    pub fn mantissa(&self) -> (r: i128)
        ensures
            r == self.spec_mantissa(),
    {
        self.mantissa
    }

    #[verifier::when_used_as_spec(spec_scale)]
    pub fn scale(&self) -> (r: u32)
        ensures
            r == self.spec_scale(),
    {
        self.scale
    }

    /// Whether the amount has a minus sign; a zero may have one.
    #[verifier::when_used_as_spec(spec_negative)]
    pub fn is_sign_negative(&self) -> (r: bool)
        ensures
            r == self.spec_negative(),
    {
        self.negative
    }

    /// Whether this amount is smaller than the other.
    pub fn less_than(&self, other: &Decimal) -> (r: bool)
        ensures
            r == (self.value() < other.value()),
    {
        proof {
            use_type_invariant(*self);
            use_type_invariant(*other);
        }
        parts_less(self.mantissa, self.scale, other.mantissa, other.scale)
    }

    /// Whether the amount is above zero.
    pub fn is_positive(&self) -> (r: bool)
        ensures
            r == (self.value() > 0),
    {
        let zero = Decimal::zero();
        zero.less_than(self)
    }

    /// Whether the amount is zero.
    pub fn is_zero(&self) -> (r: bool)
        ensures
            r == (self.value() == 0),
    {
        *self == Decimal::zero()
    }

    /// The sum, or `None` where it overflows.
    pub fn checked_add(self, other: Decimal) -> (r: Option<Decimal>)
        ensures
            r == self.plus(other),
    {
        proof {
            use_type_invariant(self);
            use_type_invariant(other);
        }
        let parts = parts_add(
            self.mantissa,
            self.scale,
            self.negative,
            other.mantissa,
            other.scale,
            other.negative,
        );
        match parts {
            Some((mantissa, scale, negative)) => Some(Decimal { mantissa, scale, negative }),
            None => None,
        }
    }

    /// The difference, or `None` where it overflows. A smaller positive amount
    /// can always be taken from a larger one.
    pub fn checked_sub(self, other: Decimal) -> (r: Option<Decimal>)
        ensures
            r == self.minus(other),
            0 < other.value() < self.value() ==> {
                &&& r matches Some(d)
                &&& 0 < d.value() <= self.value()
            },
    {
        proof {
            use_type_invariant(self);
            use_type_invariant(other);
        }
        let parts = parts_sub(
            self.mantissa,
            self.scale,
            self.negative,
            other.mantissa,
            other.scale,
            other.negative,
        );
        match parts {
            Some((mantissa, scale, negative)) => Some(Decimal { mantissa, scale, negative }),
            None => None,
        }
    }

    /// The product, or `None` where it overflows.
    pub fn checked_mul(self, other: Decimal) -> (r: Option<Decimal>)
        ensures
            r == self.times(other),
    {
        proof {
            use_type_invariant(self);
            use_type_invariant(other);
        }
        let parts = parts_mul(
            self.mantissa,
            self.scale,
            self.negative,
            other.mantissa,
            other.scale,
            other.negative,
        );
        match parts {
            Some((mantissa, scale, negative)) => Some(Decimal { mantissa, scale, negative }),
            None => None,
        }
    }

    /// The quotient, or `None` where it overflows or the divisor is zero.
    pub fn checked_div(self, other: Decimal) -> (r: Option<Decimal>)
        ensures
            r == self.over(other),
    {
        proof {
            use_type_invariant(self);
            use_type_invariant(other);
        }
        match parts_div(self.mantissa, self.scale, other.mantissa, other.scale) {
            Some((mantissa, scale)) => Some(Decimal { mantissa, scale, negative: mantissa < 0 }),
            None => None,
        }
    }
}

impl PartialEq for Decimal {
    fn eq(&self, other: &Decimal) -> (r: bool) {
        !self.less_than(other) && !other.less_than(self)
    }
}

impl vstd::std_specs::cmp::PartialEqSpecImpl for Decimal {
    open spec fn obeys_eq_spec() -> bool {
        true
    }

    open spec fn eq_spec(&self, other: &Decimal) -> bool {
        self.value() == other.value()
    }
}

impl Eq for Decimal {
}

} // verus!
