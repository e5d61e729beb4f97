//! Value arithmetic under the numeric-promotion rules: integers add as
//! integers, mixing an integer with a float promotes the integer, text
//! concatenates, a numeric operand concatenated with text is rendered in
//! decimal first, and Null is an additive identity on either side.
//!
//! The verified core performs no native float arithmetic: where a float
//! operation is called for, the outcome hands the caller the two bit
//! patterns to combine, with the integer operand already promoted.
use vstd::prelude::*;
use vstd::string::StringExecFns;
use crate::order::i64_to_f64_bits;
use crate::order::promote_i64;
use crate::value::LimboText;
use crate::value::OwnedValue;
use crate::value::TextSubtype;
use crate::value::ValueView;

verus! {

/// The decimal digit character of `d < 10`.
pub open spec fn digit_char(d: nat) -> char {
    if d == 0 {
        '0'
    } else if d == 1 {
        '1'
    } else if d == 2 {
        '2'
    } else if d == 3 {
        '3'
    } else if d == 4 {
        '4'
    } else if d == 5 {
        '5'
    } else if d == 6 {
        '6'
    } else if d == 7 {
        '7'
    } else if d == 8 {
        '8'
    } else {
        '9'
    }
}

/// The decimal digits of `n`, most significant first, no leading zeroes
/// except for zero itself.
pub open spec fn dec_digits(n: nat) -> Seq<char>
    decreases n,
{
    if n < 10 {
        seq![digit_char(n)]
    } else {
        dec_digits(n / 10).push(digit_char(n % 10))
    }
}

/// The decimal rendering of an integer: a minus sign for negatives, then
/// the digits.
pub open spec fn int_to_string_view(i: int) -> Seq<char> {
    if i < 0 {
        seq!['-'] + dec_digits((-i) as nat)
    } else {
        dec_digits(i as nat)
    }
}

/// Appends the character of the decimal digit `d`.
fn push_digit(s: &mut String, d: u64)
    requires
        d < 10,
    ensures
        final(s)@ == old(s)@ + seq![digit_char(d as nat)],
{
    if d == 0 {
        proof {
            reveal_strlit("0");
        }
        s.append("0");
    } else if d == 1 {
        proof {
            reveal_strlit("1");
        }
        s.append("1");
    } else if d == 2 {
        proof {
            reveal_strlit("2");
        }
        s.append("2");
    } else if d == 3 {
        proof {
            reveal_strlit("3");
        }
        s.append("3");
    } else if d == 4 {
        proof {
            reveal_strlit("4");
        }
        s.append("4");
    } else if d == 5 {
        proof {
            reveal_strlit("5");
        }
        s.append("5");
    } else if d == 6 {
        proof {
            reveal_strlit("6");
        }
        s.append("6");
    } else if d == 7 {
        proof {
            reveal_strlit("7");
        }
        s.append("7");
    } else if d == 8 {
        proof {
            reveal_strlit("8");
        }
        s.append("8");
    } else {
        proof {
            reveal_strlit("9");
        }
        s.append("9");
    }
    proof {
        assert(s@ =~= old(s)@ + seq![digit_char(d as nat)]);
    }
}

/// Appends the decimal digits of `n`.
fn push_digits(s: &mut String, n: u64)
    ensures
        final(s)@ == old(s)@ + dec_digits(n as nat),
    decreases n,
{
    if n < 10 {
        push_digit(s, n);
    } else {
        push_digits(s, n / 10);
        push_digit(s, n % 10);
        proof {
            assert(s@ =~= old(s)@ + dec_digits(n as nat));
        }
    }
}

/// Renders an integer in decimal: the display rule used when a numeric
/// operand is concatenated with text.
pub fn i64_to_string(i: i64) -> (r: String)
    ensures
        r@ == int_to_string_view(i as int),
{
    let mut s = String::new();
    if i < 0 {
        proof {
            reveal_strlit("-");
        }
        s.append("-");
        let mag: u64 = ((-(i + 1)) as u64) + 1;
        proof {
            assert(mag == -(i as int));
        }
        push_digits(&mut s, mag);
        proof {
            assert(s@ =~= int_to_string_view(i as int));
        }
    } else {
        push_digits(&mut s, i as u64);
    }
    s
}

/// What an addition or division produced: a finished value, or the float
/// operation the caller must perform on the two bit patterns (integer
/// operands already promoted), or a float that must be rendered as text and
/// concatenated, or an operand pairing the rules do not define.
pub enum ArithOutcome {
    /// The finished result.
    Value(OwnedValue),
    /// Combine the two floats; the operation is the one that was invoked.
    FloatOp(u64, u64),
    /// Render the float and append it to the text.
    TextThenFloat(LimboText, u64),
    /// Render the float and prepend it to the text.
    FloatThenText(u64, LimboText),
    /// An operand pairing the arithmetic rules do not define.
    Unsupported,
}

/// The model of an arithmetic outcome.
pub enum ArithOutcomeView {
    Value(ValueView),
    FloatOp(u64, u64),
    TextThenFloat(Seq<char>, u64),
    FloatThenText(u64, Seq<char>),
    Unsupported,
}

impl View for ArithOutcome {
    type V = ArithOutcomeView;

    open spec fn view(&self) -> ArithOutcomeView {
        match self {
            ArithOutcome::Value(v) => ArithOutcomeView::Value(v@),
            ArithOutcome::FloatOp(a, b) => ArithOutcomeView::FloatOp(*a, *b),
            ArithOutcome::TextThenFloat(t, b) => ArithOutcomeView::TextThenFloat(t.value@, *b),
            ArithOutcome::FloatThenText(b, t) => ArithOutcomeView::FloatThenText(*b, t.value@),
            ArithOutcome::Unsupported => ArithOutcomeView::Unsupported,
        }
    }
}

/// The addition rules over value models.
pub open spec fn spec_add(a: ValueView, b: ValueView) -> ArithOutcomeView {
    match (a, b) {
        (ValueView::Integer(x), ValueView::Integer(y)) => ArithOutcomeView::Value(
            ValueView::Integer(x + y),
        ),
        (ValueView::Integer(x), ValueView::Float(y)) => ArithOutcomeView::FloatOp(
            i64_to_f64_bits(x),
            y,
        ),
        (ValueView::Float(x), ValueView::Integer(y)) => ArithOutcomeView::FloatOp(
            x,
            i64_to_f64_bits(y),
        ),
        (ValueView::Float(x), ValueView::Float(y)) => ArithOutcomeView::FloatOp(x, y),
        (ValueView::Text(s, _), ValueView::Text(t, _)) => ArithOutcomeView::Value(
            ValueView::Text(s + t, TextSubtype::Text),
        ),
        (ValueView::Text(s, _), ValueView::Integer(y)) => ArithOutcomeView::Value(
            ValueView::Text(s + int_to_string_view(y), TextSubtype::Text),
        ),
        (ValueView::Integer(x), ValueView::Text(t, _)) => ArithOutcomeView::Value(
            ValueView::Text(int_to_string_view(x) + t, TextSubtype::Text),
        ),
        (ValueView::Text(s, _), ValueView::Float(y)) => ArithOutcomeView::TextThenFloat(s, y),
        (ValueView::Float(x), ValueView::Text(t, _)) => ArithOutcomeView::FloatThenText(x, t),
        (_, ValueView::Null) => ArithOutcomeView::Value(a),
        (ValueView::Null, _) => ArithOutcomeView::Value(b),
        _ => ArithOutcomeView::Unsupported,
    }
}

/// The division rules over value models: integers divide as integers,
/// truncating toward zero; any float operand makes a float division.
pub open spec fn spec_div(a: ValueView, b: ValueView) -> ArithOutcomeView {
    match (a, b) {
        (ValueView::Integer(x), ValueView::Integer(y)) => ArithOutcomeView::Value(
            ValueView::Integer(trunc_div(x, y)),
        ),
        (ValueView::Integer(x), ValueView::Float(y)) => ArithOutcomeView::FloatOp(
            i64_to_f64_bits(x),
            y,
        ),
        (ValueView::Float(x), ValueView::Integer(y)) => ArithOutcomeView::FloatOp(
            x,
            i64_to_f64_bits(y),
        ),
        (ValueView::Float(x), ValueView::Float(y)) => ArithOutcomeView::FloatOp(x, y),
        _ => ArithOutcomeView::Unsupported,
    }
}

/// Integer division truncating toward zero, as machine division does.
pub open spec fn trunc_div(x: int, y: int) -> int {
    let q = abs_of(x) / abs_of(y);
    if (x < 0) != (y < 0) {
        -q
    } else {
        q as int
    }
}

/// The absolute value.
pub open spec fn abs_of(x: int) -> nat {
    if x < 0 {
        (-x) as nat
    } else {
        x as nat
    }
}

impl OwnedValue {
    /// Adds two values under the promotion rules. The rules leave blob,
    /// aggregate and record operands (other than against Null) undefined;
    /// integer addition must not overflow.
    pub fn add(self, rhs: Self) -> (r: ArithOutcome)
        requires
            self@ matches ValueView::Integer(x) ==> (rhs@ matches ValueView::Integer(y)
                ==> i64::MIN <= x + y <= i64::MAX),
        ensures
            r@ == spec_add(self@, rhs@),
    {
        match (self, rhs) {
            (OwnedValue::Integer(x), OwnedValue::Integer(y)) => ArithOutcome::Value(
                OwnedValue::Integer(x + y),
            ),
            (OwnedValue::Integer(x), OwnedValue::Float(y)) => ArithOutcome::FloatOp(
                promote_i64(x),
                y,
            ),
            (OwnedValue::Float(x), OwnedValue::Integer(y)) => ArithOutcome::FloatOp(
                x,
                promote_i64(y),
            ),
            (OwnedValue::Float(x), OwnedValue::Float(y)) => ArithOutcome::FloatOp(x, y),
            (OwnedValue::Text(s), OwnedValue::Text(t)) => {
                let joined = s.value.concat(t.value.as_str());
                ArithOutcome::Value(OwnedValue::build_text(joined))
            },
            (OwnedValue::Text(s), OwnedValue::Integer(y)) => {
                let joined = s.value.concat(i64_to_string(y).as_str());
                ArithOutcome::Value(OwnedValue::build_text(joined))
            },
            (OwnedValue::Integer(x), OwnedValue::Text(t)) => {
                let joined = i64_to_string(x).concat(t.value.as_str());
                ArithOutcome::Value(OwnedValue::build_text(joined))
            },
            (OwnedValue::Text(s), OwnedValue::Float(y)) => ArithOutcome::TextThenFloat(s, y),
            (OwnedValue::Float(x), OwnedValue::Text(t)) => ArithOutcome::FloatThenText(x, t),
            (lhs, OwnedValue::Null) => ArithOutcome::Value(lhs),
            (OwnedValue::Null, rhs) => ArithOutcome::Value(rhs),
            _ => ArithOutcome::Unsupported,
        }
    }

    /// Adds a plain integer to a numeric value: integers add as integers,
    /// a float operand promotes the integer. Only numeric values take
    /// part; integer addition must not overflow.
    pub fn add_i64(self, rhs: i64) -> (r: ArithOutcome)
        requires
            self@ is Integer || self@ is Float,
            self@ matches ValueView::Integer(x) ==> i64::MIN <= x + rhs <= i64::MAX,
        ensures
            self@ matches ValueView::Integer(x) ==> r@ == ArithOutcomeView::Value(
                ValueView::Integer(x + rhs),
            ),
            self@ matches ValueView::Float(b) ==> r@ == ArithOutcomeView::FloatOp(
                b,
                i64_to_f64_bits(rhs as int),
            ),
    {
        match self {
            OwnedValue::Integer(x) => ArithOutcome::Value(OwnedValue::Integer(x + rhs)),
            OwnedValue::Float(b) => ArithOutcome::FloatOp(b, promote_i64(rhs)),
            _ => ArithOutcome::Unsupported,
        }
    }

    /// Adds a float, given by its bit pattern, to a numeric value: an
    /// integer operand is promoted and the caller combines the two floats.
    pub fn add_f64_bits(self, rhs_bits: u64) -> (r: ArithOutcome)
        requires
            self@ is Integer || self@ is Float,
        ensures
            self@ matches ValueView::Integer(x) ==> r@ == ArithOutcomeView::FloatOp(
                i64_to_f64_bits(x),
                rhs_bits,
            ),
            self@ matches ValueView::Float(b) ==> r@ == ArithOutcomeView::FloatOp(b, rhs_bits),
    {
        match self {
            OwnedValue::Integer(x) => ArithOutcome::FloatOp(promote_i64(x), rhs_bits),
            OwnedValue::Float(b) => ArithOutcome::FloatOp(b, rhs_bits),
            _ => ArithOutcome::Unsupported,
        }
    }

    /// Divides two values under the promotion rules. A zero integer
    /// divisor, and overflow of the one overflowing quotient, are the
    /// caller's to rule out, as the rules define no result for them.
    pub fn div(self, rhs: Self) -> (r: ArithOutcome)
        requires
            self@ matches ValueView::Integer(x) ==> (rhs@ matches ValueView::Integer(y) ==> y != 0
                && !(x == i64::MIN && y == -1)),
        ensures
            r@ == spec_div(self@, rhs@),
    {
        match (self, rhs) {
            (OwnedValue::Integer(x), OwnedValue::Integer(y)) => {
                let xm: u64 = if x >= 0 {
                    x as u64
                } else {
                    ((-(x + 1)) as u64) + 1
                };
                let ym: u64 = if y >= 0 {
                    y as u64
                } else {
                    ((-(y + 1)) as u64) + 1
                };
                let q = xm / ym;
                let neg = (x < 0) != (y < 0);
                proof {
                    assert(xm == abs_of(x as int));
                    assert(ym == abs_of(y as int));
                    vstd::arithmetic::div_mod::lemma_fundamental_div_mod(xm as int, ym as int);
                    assert(q <= xm) by {
                        if q > xm {
                            vstd::arithmetic::mul::lemma_mul_inequality(
                                xm as int + 1,
                                q as int,
                                ym as int,
                            );
                            assert(false);
                        }
                    }
                    if q >= 0x8000_0000_0000_0000 {
                        vstd::arithmetic::mul::lemma_mul_inequality(
                            0x8000_0000_0000_0000,
                            q as int,
                            ym as int,
                        );
                        if ym >= 2 {
                            vstd::arithmetic::mul::lemma_mul_inequality(
                                2,
                                ym as int,
                                0x8000_0000_0000_0000,
                            );
                            vstd::arithmetic::mul::lemma_mul_is_commutative(
                                ym as int,
                                0x8000_0000_0000_0000,
                            );
                            assert(false);
                        }
                        assert(ym == 1);
                        assert(q == xm);
                        assert(x == i64::MIN && y == 1);
                    }
                }
                let d: i64;
                if neg {
                    if q >= 0x8000_0000_0000_0000 {
                        d = i64::MIN;
                    } else {
                        d = -(q as i64);
                    }
                } else {
                    d = q as i64;
                }
                                ArithOutcome::Value(OwnedValue::Integer(d))
            },
            (OwnedValue::Integer(x), OwnedValue::Float(y)) => ArithOutcome::FloatOp(
                promote_i64(x),
                y,
            ),
            (OwnedValue::Float(x), OwnedValue::Integer(y)) => ArithOutcome::FloatOp(
                x,
                promote_i64(y),
            ),
            (OwnedValue::Float(x), OwnedValue::Float(y)) => ArithOutcome::FloatOp(x, y),
            _ => ArithOutcome::Unsupported,
        }
    }
}

/// Null is an additive identity: adding Null to any value, on either side,
/// returns the value unchanged.
pub proof fn lemma_add_null_identity(v: ValueView)
    ensures
        spec_add(v, ValueView::Null) == ArithOutcomeView::Value(v),
        spec_add(ValueView::Null, v) == ArithOutcomeView::Value(v),
{
}

} // verus!
