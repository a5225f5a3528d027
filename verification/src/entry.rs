//! Orders typed in as text, one field at a time.

use crate::types::{lowercase, side_of_word, Order, OrderView, Side};
use vstd::prelude::*;

verus! {

/// Whether a character is one of the decimal digits `0` to `9`.
pub open spec fn is_digit(c: char) -> bool {
    '0' <= c <= '9'
}

/// The number that a run of decimal digits writes.
pub open spec fn digits_value(digits: Seq<char>) -> nat
    decreases digits.len(),
{
    if digits.len() == 0 {
        0
    } else {
        10 * digits_value(digits.drop_last()) + (digits.last() as nat - '0' as nat) as nat
    }
}

/// The digits of a text: the text without the `+` that may stand before them.
pub open spec fn digits_of(text: Seq<char>) -> Seq<char> {
    if text.len() > 0 && text.first() == '+' {
        text.drop_first()
    } else {
        text
    }
}

/// The number that a text writes: decimal digits, at least one and nothing
/// else but a `+` that may stand before them, whose value does not pass
/// `u64::MAX`.
pub open spec fn number_of(text: Seq<char>) -> Option<u64> {
    let digits = digits_of(text);
    if digits.len() > 0 && (forall|i: int| 0 <= i < digits.len() ==> is_digit(#[trigger] digits[i]))
        && digits_value(digits) <= u64::MAX {
        Some(digits_value(digits) as u64)
    } else {
        None
    }
}

/// More digits do not write a smaller number.
proof fn lemma_digits_value_grows(digits: Seq<char>, shown: int)
    requires
        0 <= shown <= digits.len(),
        forall|i: int| 0 <= i < digits.len() ==> is_digit(#[trigger] digits[i]),
    ensures
        digits_value(digits.take(shown)) <= digits_value(digits),
    decreases digits.len() - shown,
{
    if shown == digits.len() {
        assert(digits.take(shown) =~= digits);
    } else {
        assert(digits.take(shown + 1).drop_last() =~= digits.take(shown));
        lemma_digits_value_grows(digits, shown + 1);
    }
}

/// The byte that stands for `+`.
const PLUS: u8 = 43;

/// The byte that stands for the digit `0`.
const DIGIT_ZERO: u8 = 48;

/// The byte that stands for the digit `9`.
const DIGIT_NINE: u8 = 57;

/// Reads a number from `text`: see [`number_of`].
pub fn parse_number(text: &str) -> (number: Option<u64>)
    ensures
        number == number_of(text@),
{
    let ghost digits = digits_of(text@);
    if !text.is_ascii() {
        proof {
            let i = choose|i: int|
                0 <= i < text@.len() && !('\0' <= #[trigger] text@[i] <= '\u{7f}');
            if text@.first() == '+' {
                assert(digits[i - 1] == text@[i]);
            }
        }
        return None;
    }
    let length = text.unicode_len();
    let signed = length > 0 && text.get_ascii(0) == PLUS;
    let start: usize = if signed {
        1
    } else {
        0
    };
    if start == length {
        return None;
    }
    let mut value: u64 = 0;
    let mut at: usize = start;
    while at < length
        invariant
            start <= at <= length,
            length == text@.len(),
            text.is_ascii(),
            digits == digits_of(text@),
            digits.len() == length - start,
            forall|i: int| 0 <= i < digits.len() ==> digits[i] == text@[i + start],
            forall|i: int| 0 <= i < at - start ==> is_digit(#[trigger] digits[i]),
            value == digits_value(digits.take(at - start)),
        decreases length - at,
    {
        let byte = text.get_ascii(at);
        assert(digits[at - start] as u8 == byte);
        if byte < DIGIT_ZERO || byte > DIGIT_NINE {
            return None;
        }
        let digit = (byte - DIGIT_ZERO) as u64;
        proof {
            assert(digits.take(at - start + 1).drop_last() =~= digits.take(at - start));
            if forall|i: int| 0 <= i < digits.len() ==> is_digit(#[trigger] digits[i]) {
                lemma_digits_value_grows(digits, at - start + 1);
            }
        }
        let tens = match value.checked_mul(10) {
            Some(tens) => tens,
            None => {
                return None;
            },
        };
        value = match tens.checked_add(digit) {
            Some(sum) => sum,
            None => {
                return None;
            },
        };
        at = at + 1;
    }
    assert(digits.take(at - start) =~= digits);
    Some(value)
}

/// What is asked next of an order that is typed in field by field, with the
/// fields that were read so far.
#[derive(Debug, PartialEq, Eq)]
pub enum OrderForm {
    /// Nothing was read: the price is asked.
    Price,
    /// The amount is asked.
    Amount { price: u64 },
    /// The side is asked.
    Side { price: u64, amount: u64 },
    /// The signer is asked.
    Signer { price: u64, amount: u64, side: Side },
}

/// How a form goes on after an answer.
#[derive(Debug, PartialEq, Eq)]
pub enum FormStep {
    /// The next field is asked.
    Ask(OrderForm),
    /// All fields were read: this is the order.
    Done(Order),
}

/// The model of a [`FormStep`].
pub enum FormStepView {
    Ask(OrderForm),
    Done(OrderView),
}

impl View for FormStep {
    type V = FormStepView;

    open spec fn view(&self) -> FormStepView {
        match self {
            FormStep::Ask(form) => FormStepView::Ask(*form),
            FormStep::Done(order) => FormStepView::Done(order@),
        }
    }
}

/// How `form` goes on after the answer `line`, or why the answer is refused.
/// The price and the amount are numbers as [`number_of`] reads them, the
/// side is `buy` or `sell` in any case of the letters, and the signer is the
/// line as it is.
pub open spec fn answered(form: OrderForm, line: Seq<char>) -> Result<FormStepView, Seq<char>> {
    match form {
        OrderForm::Price => match number_of(line) {
            Some(price) => Ok(FormStepView::Ask(OrderForm::Amount { price })),
            None => Err("Not a valid price"@),
        },
        OrderForm::Amount { price } => match number_of(line) {
            Some(amount) => Ok(FormStepView::Ask(OrderForm::Side { price, amount })),
            None => Err("Not a valid amount"@),
        },
        OrderForm::Side { price, amount } => match side_of_word(lowercase(line)) {
            Ok(side) => Ok(FormStepView::Ask(OrderForm::Signer { price, amount, side })),
            Err(_) => Err("Side must be SELL or BUY"@),
        },
        OrderForm::Signer { price, amount, side } => Ok(
            FormStepView::Done(
                OrderView { price: price as nat, amount: amount as nat, side, signer: line },
            ),
        ),
    }
}

impl OrderForm {
    /// The form of which nothing was read yet.
    pub fn new() -> (form: OrderForm)
        ensures
            form == OrderForm::Price,
    {
        OrderForm::Price
    }

    /// The words that ask for the next field.
    pub fn prompt(&self) -> (words: &'static str)
        ensures
            words@ == match self {
                OrderForm::Price => "Price:"@,
                OrderForm::Amount { .. } => "Amount:"@,
                OrderForm::Side { .. } => "Side:"@,
                OrderForm::Signer { .. } => "Signer:"@,
            },
    {
        match self {
            OrderForm::Price => "Price:",
            OrderForm::Amount { .. } => "Amount:",
            OrderForm::Side { .. } => "Side:",
            OrderForm::Signer { .. } => "Signer:",
        }
    }

    /// Takes `line` as the answer for the field that is asked.
    pub fn answer(self, line: String) -> (step: Result<FormStep, String>)
        ensures
            match answered(self, line@) {
                Ok(next) => step matches Ok(s) && s@ == next,
                Err(message) => step matches Err(m) && m@ == message,
            },
    {
        match self {
            OrderForm::Price => match parse_number(line.as_str()) {
                Some(price) => Ok(FormStep::Ask(OrderForm::Amount { price })),
                None => Err("Not a valid price".to_owned()),
            },
            OrderForm::Amount { price } => match parse_number(line.as_str()) {
                Some(amount) => Ok(FormStep::Ask(OrderForm::Side { price, amount })),
                None => Err("Not a valid amount".to_owned()),
            },
            OrderForm::Side { price, amount } => match Side::try_from(line) {
                Ok(side) => Ok(FormStep::Ask(OrderForm::Signer { price, amount, side })),
                Err(_) => Err("Side must be SELL or BUY".to_owned()),
            },
            OrderForm::Signer { price, amount, side } => Ok(
                FormStep::Done(Order { price, amount, side, signer: line }),
            ),
        }
    }
}

} // verus!
