//! Exact decimal literals.
//!
//! A literal such as `34.5` is kept as its decimal digits `3 4 5` together
//! with the count of digits that follow the decimal point. Nothing is rounded:
//! the literal denotes the rational number `mantissa / 10^scale`.
use vstd::prelude::*;

verus! {

/// `c` is one of the ASCII digits `0` to `9`.
pub open spec fn is_digit(c: char) -> bool {
    '0' <= c && c <= '9'
}

/// `c` may occur in a numeric literal: a digit or the decimal point.
pub open spec fn is_literal_char(c: char) -> bool {
    is_digit(c) || c == '.'
}

/// The number that the digit `c` stands for.
pub open spec fn digit_value(c: char) -> u8
    recommends
        is_digit(c),
{
    (c as int - '0' as int) as u8
}

/// The mathematical model of a literal: its decimal digits, most significant
/// first, and how many of them stand after the decimal point.
pub ghost struct Decimal {
    pub digits: Seq<u8>,
    pub scale: nat,
}

/// The natural number written by a sequence of decimal digits.
pub open spec fn digits_value(digits: Seq<u8>) -> nat
    decreases digits.len(),
{
    if digits.len() == 0 {
        0
    } else {
        digits_value(digits.drop_last()) * 10 + digits.last() as nat
    }
}

impl Decimal {
    /// There is at least one digit, every digit is below ten, and the scale
    /// counts digits that exist.
    pub open spec fn wf(self) -> bool {
        &&& self.digits.len() > 0
        &&& forall|i: int| 0 <= i < self.digits.len() ==> self.digits[i] <= 9
        &&& self.scale <= self.digits.len()
    }

    /// The literal read as a whole number, ignoring the decimal point. The
    /// literal denotes `mantissa() / 10^scale`.
    pub open spec fn mantissa(self) -> nat {
        digits_value(self.digits)
    }
}

/// How many decimal points `text` holds.
pub open spec fn dot_count(text: Seq<char>) -> nat
    decreases text.len(),
{
    if text.len() == 0 {
        0
    } else if text.last() == '.' {
        dot_count(text.drop_last()) + 1
    } else {
        dot_count(text.drop_last())
    }
}

/// The values of the digits of `text`, in order, skipping every other
/// character.
pub open spec fn digits_of(text: Seq<char>) -> Seq<u8>
    decreases text.len(),
{
    if text.len() == 0 {
        Seq::empty()
    } else if is_digit(text.last()) {
        digits_of(text.drop_last()).push(digit_value(text.last()))
    } else {
        digits_of(text.drop_last())
    }
}

/// How many digits of `text` stand after its last decimal point; zero when
/// it has none.
pub open spec fn fraction_len(text: Seq<char>) -> nat
    decreases text.len(),
{
    if text.len() == 0 || text.last() == '.' || dot_count(text) == 0 {
        0
    } else if is_digit(text.last()) {
        fraction_len(text.drop_last()) + 1
    } else {
        fraction_len(text.drop_last())
    }
}

/// `text` is a well-formed literal: only digits and decimal points, at most
/// one decimal point, at least one digit.
pub open spec fn is_literal(text: Seq<char>) -> bool {
    &&& forall|i: int| 0 <= i < text.len() ==> is_literal_char(#[trigger] text[i])
    &&& dot_count(text) <= 1
    &&& digits_of(text).len() > 0
}

/// The literal that `text` writes, if it writes one.
pub open spec fn decimal_of(text: Seq<char>) -> Option<Decimal> {
    if is_literal(text) {
        Some(Decimal { digits: digits_of(text), scale: fraction_len(text) })
    } else {
        None
    }
}

/// The character that writes the digit `d`.
pub open spec fn digit_char(d: u8) -> char
    recommends
        d <= 9,
{
    (d + '0' as u8) as char
}

/// The characters that write a run of digits.
pub open spec fn digits_text(digits: Seq<u8>) -> Seq<char> {
    digits.map_values(|d: u8| digit_char(d))
}

/// The decimal digits of `n`, most significant first, without leading zeros;
/// the single digit `0` for zero.
pub open spec fn decimal_digits(n: nat) -> Seq<u8>
    decreases n,
{
    if n < 10 {
        seq![n as u8]
    } else {
        decimal_digits(n / 10).push((n % 10) as u8)
    }
}

/// The decimal string of `n`.
pub open spec fn decimal_text(n: nat) -> Seq<char> {
    digits_text(decimal_digits(n))
}

impl Decimal {
    /// The literal can be written so that it starts with a digit: it is
    /// well-formed and has a digit before the decimal point.
    pub open spec fn writable(self) -> bool {
        self.wf() && self.scale < self.digits.len()
    }

    /// The text of the literal: its digits, with the decimal point before
    /// the last `scale` of them, and no decimal point when `scale` is zero.
    pub open spec fn text(self) -> Seq<char>
        recommends
            self.writable(),
    {
        let split = self.digits.len() - self.scale;
        if self.scale == 0 {
            digits_text(self.digits)
        } else {
            digits_text(self.digits.take(split)) + seq!['.'] + digits_text(
                self.digits.skip(split),
            )
        }
    }
}

/// The decimal digits of `n` are digits, and they write `n`.
pub proof fn lemma_decimal_digits(n: nat)
    ensures
        decimal_digits(n).len() > 0,
        forall|i: int| 0 <= i < decimal_digits(n).len() ==> decimal_digits(n)[i] <= 9,
        digits_value(decimal_digits(n)) == n,
    decreases n,
{
    if n < 10 {
        assert(decimal_digits(n).drop_last() =~= Seq::<u8>::empty());
        assert(digits_value(Seq::<u8>::empty()) == 0);
    } else {
        lemma_decimal_digits(n / 10);
        assert(decimal_digits(n).drop_last() =~= decimal_digits(n / 10));
    }
}

/// Writing digits and reading them back gives the same digits.
pub proof fn lemma_digits_text(digits: Seq<u8>)
    requires
        forall|i: int| 0 <= i < digits.len() ==> digits[i] <= 9,
    ensures
        digits_text(digits).len() == digits.len(),
        forall|i: int| 0 <= i < digits.len() ==> is_digit(#[trigger] digits_text(digits)[i]),
        digits_text(digits).map_values(|c: char| digit_value(c)) == digits,
{
    let text = digits_text(digits);
    assert forall|i: int| 0 <= i < digits.len() implies is_digit(#[trigger] text[i])
        && digit_value(text[i]) == digits[i] by {
        assert(digits[i] <= 9);
    }
    assert(text.map_values(|c: char| digit_value(c)) =~= digits);
}

/// Text made of digits alone has no decimal point and no fraction, and its
/// digits are the values of its characters.
pub proof fn lemma_digits_only(text: Seq<char>)
    requires
        forall|i: int| 0 <= i < text.len() ==> is_digit(#[trigger] text[i]),
    ensures
        dot_count(text) == 0,
        fraction_len(text) == 0,
        digits_of(text) == text.map_values(|c: char| digit_value(c)),
    decreases text.len(),
{
    if text.len() > 0 {
        lemma_digits_only(text.drop_last());
    }
    assert(digits_of(text) =~= text.map_values(|c: char| digit_value(c)));
}

/// Digits written after text that holds a decimal point add to its digits
/// and to its fraction, and to nothing else.
pub proof fn lemma_fraction_digits(head: Seq<char>, digits: Seq<char>)
    requires
        dot_count(head) > 0,
        forall|i: int| 0 <= i < digits.len() ==> is_digit(#[trigger] digits[i]),
    ensures
        dot_count(head + digits) == dot_count(head),
        fraction_len(head + digits) == fraction_len(head) + digits.len(),
        digits_of(head + digits) == digits_of(head) + digits.map_values(
            |c: char| digit_value(c),
        ),
    decreases digits.len(),
{
    if digits.len() == 0 {
        assert(head + digits =~= head);
        assert(digits_of(head) + digits.map_values(|c: char| digit_value(c)) =~= digits_of(
            head,
        ));
    } else {
        let shorter = digits.drop_last();
        lemma_fraction_digits(head, shorter);
        assert((head + digits).drop_last() =~= head + shorter);
        assert((head + digits).last() == digits.last());
        assert(is_digit(digits.last()));
        assert(digits_of(head + digits) =~= digits_of(head) + digits.map_values(
            |c: char| digit_value(c),
        ));
    }
}

/// The text of a writable literal is made of digits and at most one decimal
/// point, starts with a digit, and reads back as the literal.
pub proof fn lemma_text_reads_back(d: Decimal)
    requires
        d.writable(),
    ensures
        d.text().len() > 0,
        is_digit(d.text()[0]),
        forall|i: int| 0 <= i < d.text().len() ==> is_literal_char(#[trigger] d.text()[i]),
        decimal_of(d.text()) == Some(d),
{
    let split = d.digits.len() - d.scale;
    lemma_digits_text(d.digits);
    if d.scale == 0 {
        lemma_digits_only(d.text());
    } else {
        let whole = d.digits.take(split);
        let fraction = d.digits.skip(split);
        lemma_digits_text(whole);
        lemma_digits_text(fraction);
        let head = digits_text(whole).push('.');
        lemma_digits_only(digits_text(whole));
        assert(head.drop_last() =~= digits_text(whole));
        assert(dot_count(head) == 1);
        assert(fraction_len(head) == 0);
        assert(digits_of(head) == whole);
        lemma_fraction_digits(head, digits_text(fraction));
        assert(d.text() =~= head + digits_text(fraction));
        assert(whole + fraction =~= d.digits);
        assert(is_digit(digits_text(whole)[0]));
        assert forall|i: int| 0 <= i < d.text().len() implies is_literal_char(
            #[trigger] d.text()[i],
        ) by {
            if i < split {
                assert(is_digit(digits_text(whole)[i]));
            } else if i > split {
                assert(is_digit(digits_text(fraction)[i - split - 1]));
            }
        }
    }
}

/// The digits read from text are digits.
pub proof fn lemma_digits_of_bound(text: Seq<char>)
    ensures
        digits_of(text).len() <= text.len(),
        forall|i: int| 0 <= i < digits_of(text).len() ==> digits_of(text)[i] <= 9,
    decreases text.len(),
{
    if text.len() > 0 {
        lemma_digits_of_bound(text.drop_last());
    }
}

/// In text that starts with a digit, not every digit stands after a decimal
/// point.
pub proof fn lemma_leading_digit(text: Seq<char>)
    requires
        text.len() > 0,
        is_digit(text[0]),
    ensures
        fraction_len(text) < digits_of(text).len(),
    decreases text.len(),
{
    let shorter = text.drop_last();
    if text.len() == 1 {
        assert(digits_of(shorter).len() == 0);
        assert(dot_count(shorter) == 0);
        assert(text.last() == text[0]);
    } else {
        assert(shorter[0] == text[0]);
        lemma_leading_digit(shorter);
    }
}

/// A literal read from text that starts with a digit is writable.
pub proof fn lemma_read_writable(text: Seq<char>)
    requires
        text.len() > 0,
        is_digit(text[0]),
    ensures
        decimal_of(text) matches Some(d) ==> d.writable(),
{
    lemma_digits_of_bound(text);
    lemma_leading_digit(text);
}

/// The decimal string of a natural number is a literal: its digits are the
/// decimal digits of the number, none of them after a decimal point, and
/// read as a whole number they give the number back.
pub proof fn lemma_decimal_text(n: nat)
    ensures
        decimal_of(decimal_text(n)) == Some(Decimal { digits: decimal_digits(n), scale: 0 }),
        (Decimal { digits: decimal_digits(n), scale: 0 }).writable(),
        (Decimal { digits: decimal_digits(n), scale: 0 }).mantissa() == n,
        forall|i: int| 0 <= i < decimal_text(n).len() ==> is_digit(#[trigger] decimal_text(n)[i]),
{
    lemma_decimal_digits(n);
    lemma_digits_text(decimal_digits(n));
    lemma_text_reads_back(Decimal { digits: decimal_digits(n), scale: 0 });
}

/// An exact decimal literal.
#[derive(Debug, PartialEq, Eq)]
pub struct Number {
    digits: Vec<u8>,
    scale: usize,
}

impl View for Number {
    type V = Decimal;

    closed spec fn view(&self) -> Decimal {
        Decimal { digits: self.digits@, scale: self.scale as nat }
    }
}

/// Reports whether `c` is an ASCII digit.
pub fn is_digit_char(c: char) -> (r: bool)
    ensures
        r == is_digit(c),
{
    '0' <= c && c <= '9'
}

impl Clone for Number {
    fn clone(&self) -> (r: Number)
        ensures
            r@ == self@,
    {
        proof {
            use_type_invariant(self);
        }
        Number { digits: self.digits.clone(), scale: self.scale }
    }
}

impl Number {
    #[verifier::type_invariant]
    spec fn inv(self) -> bool {
        self@.wf()
    }

    /// Builds a literal from its digits and the count of digits after the
    /// decimal point. Returns `None` when there is no digit, when a digit is
    /// above nine, or when `scale` counts more digits than there are.
    pub fn new(digits: Vec<u8>, scale: usize) -> (r: Option<Number>)
        ensures
            r is Some <==> (Decimal { digits: digits@, scale: scale as nat }).wf(),
            r matches Some(n) ==> n@ == (Decimal { digits: digits@, scale: scale as nat }),
    {
        if digits.len() == 0 || scale > digits.len() {
            return None;
        }
        let mut i: usize = 0;
        while i < digits.len()
            invariant
                i <= digits.len(),
                forall|j: int| 0 <= j < i ==> digits[j] <= 9,
            decreases digits.len() - i,
        {
            if digits[i] > 9 {
                return None;
            }
            i += 1;
        }
        Some(Number { digits, scale })
    }

    /// Reads a literal from text. Succeeds exactly on text made of digits
    /// with at most one decimal point and at least one digit.
    pub fn parse(text: &str) -> (r: Option<Number>)
        ensures
            r is Some <==> is_literal(text@),
            r matches Some(n) ==> Some(n@) == decimal_of(text@),
    {
        let mut digits: Vec<u8> = Vec::new();
        let mut scale: usize = 0;
        let mut dots: usize = 0;
        let mut clean: bool = true;
        for c in it: text.chars()
            invariant
                it.seq() == text@,
                digits@ == digits_of(text@.take(it.index() as int)),
                digits@.len() <= it.index(),
                forall|j: int| 0 <= j < digits@.len() ==> digits@[j] <= 9,
                scale == fraction_len(text@.take(it.index() as int)),
                scale <= digits@.len(),
                dots <= 2,
                dots == 2 <==> dot_count(text@.take(it.index() as int)) >= 2,
                dots < 2 ==> dots == dot_count(text@.take(it.index() as int)),
                clean <==> forall|j: int|
                    0 <= j < it.index() ==> is_literal_char(#[trigger] text@[j]),
        {
            proof {
                let k = it.index() as int;
                assert(text@.take(k + 1).drop_last() == text@.take(k));
                assert(text@.take(k + 1).last() == c);
            }
            if is_digit_char(c) {
                digits.push(c as u8 - 48u8);
                if dots > 0 {
                    let count = digits.len();
                    assert(scale < count);
                    scale += 1;
                }
            } else if c == '.' {
                if dots < 2 {
                    dots += 1;
                }
                scale = 0;
            } else {
                clean = false;
            }
        }
        assert(text@.take(text@.len() as int) == text@);
        if clean && dots <= 1 && digits.len() > 0 {
            Some(Number { digits, scale })
        } else {
            None
        }
    }

    /// The decimal digits, most significant first.
    pub fn digits(&self) -> (r: &Vec<u8>)
        ensures
            r@ == self@.digits,
            self@.wf(),
    {
        proof {
            use_type_invariant(self);
        }
        &self.digits
    }

    /// How many of the digits stand after the decimal point.
    pub fn scale(&self) -> (r: usize)
        ensures
            r == self@.scale,
            self@.wf(),
    {
        proof {
            use_type_invariant(self);
        }
        self.scale
    }
}

} // verus!
