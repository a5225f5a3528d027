use trading_venue::entry::{parse_number, FormStep, OrderForm};
use trading_venue::types::{Order, Side};

#[test]
fn numbers_are_decimal_digits_with_an_optional_plus() {
    assert_eq!(parse_number("0"), Some(0));
    assert_eq!(parse_number("42"), Some(42));
    assert_eq!(parse_number("+42"), Some(42));
    assert_eq!(parse_number("007"), Some(7));
    assert_eq!(parse_number("18446744073709551615"), Some(u64::MAX));
    assert_eq!(parse_number("000000000000000000000000000000000000001"), Some(1));
}

#[test]
fn other_texts_are_no_numbers() {
    assert_eq!(parse_number(""), None);
    assert_eq!(parse_number("+"), None);
    assert_eq!(parse_number("-1"), None);
    assert_eq!(parse_number("++1"), None);
    assert_eq!(parse_number("1+"), None);
    assert_eq!(parse_number(" 1"), None);
    assert_eq!(parse_number("1 "), None);
    assert_eq!(parse_number("1_000"), None);
    assert_eq!(parse_number("12a"), None);
    assert_eq!(parse_number("1.5"), None);
    assert_eq!(parse_number("\u{663}"), None);
    assert_eq!(parse_number("18446744073709551616"), None);
    assert_eq!(parse_number("99999999999999999999999"), None);
    assert_eq!(parse_number("99999999999999999999999x"), None);
}

#[test]
fn numbers_are_read_as_the_standard_library_reads_them() {
    let texts = [
        "", "+", "-", "0", "+0", "-0", "1", "+1", "-1", "00", "10", "+010", "a", "1a", "a1", " 1",
        "1 ", "1_0", "18446744073709551615", "18446744073709551616", "+18446744073709551615",
        "184467440737095516150", "\u{ff11}", "1\u{e9}",
    ];
    for text in texts {
        assert_eq!(parse_number(text), text.parse::<u64>().ok());
    }
}

#[test]
fn form_asks_for_price_amount_side_and_signer_in_turn() {
    let form = OrderForm::new();
    assert_eq!(form.prompt(), "Price:");
    let form = match form.answer("10".to_string()) {
        Ok(FormStep::Ask(form)) => form,
        other => panic!("{:?}", other),
    };
    assert_eq!(form, OrderForm::Amount { price: 10 });
    assert_eq!(form.prompt(), "Amount:");
    let form = match form.answer("3".to_string()) {
        Ok(FormStep::Ask(form)) => form,
        other => panic!("{:?}", other),
    };
    assert_eq!(form, OrderForm::Side { price: 10, amount: 3 });
    assert_eq!(form.prompt(), "Side:");
    let form = match form.answer("SELL".to_string()) {
        Ok(FormStep::Ask(form)) => form,
        other => panic!("{:?}", other),
    };
    assert_eq!(form, OrderForm::Signer { price: 10, amount: 3, side: Side::Sell });
    assert_eq!(form.prompt(), "Signer:");
    assert_eq!(
        form.answer("ALICE".to_string()),
        Ok(FormStep::Done(Order {
            price: 10,
            amount: 3,
            side: Side::Sell,
            signer: "ALICE".to_string()
        }))
    );
}

#[test]
fn form_refuses_an_answer_with_the_message_for_its_field() {
    assert_eq!(
        OrderForm::Price.answer("ten".to_string()),
        Err("Not a valid price".to_string())
    );
    assert_eq!(
        OrderForm::Amount { price: 1 }.answer("-3".to_string()),
        Err("Not a valid amount".to_string())
    );
    assert_eq!(
        OrderForm::Side { price: 1, amount: 2 }.answer("hold".to_string()),
        Err("Side must be SELL or BUY".to_string())
    );
    assert_eq!(
        OrderForm::Signer { price: 1, amount: 2, side: Side::Buy }.answer("".to_string()),
        Ok(FormStep::Done(Order { price: 1, amount: 2, side: Side::Buy, signer: "".to_string() }))
    );
}
