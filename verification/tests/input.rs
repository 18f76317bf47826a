use adder_algorithm::input::allowed_in_numbers;
use adder_algorithm::input::allowed_in_target;
use adder_algorithm::input::classify;
use adder_algorithm::input::gathering_input;
use adder_algorithm::input::message;
use adder_algorithm::input::number_set;
use adder_algorithm::input::reason_for_invalid_number;
use adder_algorithm::input::FormView;
use adder_algorithm::input::InvalidReason;
use adder_algorithm::input::NumberSetError;

fn offender(text: &str) -> String {
    match number_set(text) {
        Err(NumberSetError::InvalidNumber(word)) => word,
        Ok(values) => panic!("{text:?} was read as {values:?}"),
    }
}

#[test]
fn numbers_on_lines_are_read_in_order() {
    assert_eq!(number_set("100\n200\n-50\n300\n").unwrap(), vec![100, 200, -50, 300]);
    assert_eq!(number_set("100\r\n200\r\n-50").unwrap(), vec![100, 200, -50]);
}

#[test]
fn any_white_space_separates_numbers() {
    assert_eq!(number_set("  1 \t 2\u{b}3\u{c}4  ").unwrap(), vec![1, 2, 3, 4]);
    assert_eq!(number_set("5\u{85}6\u{a0}7\u{1680}8").unwrap(), vec![5, 6, 7, 8]);
    assert_eq!(number_set("1\u{2000}2\u{200a}3\u{2028}4\u{2029}5").unwrap(), vec![1, 2, 3, 4, 5]);
    assert_eq!(number_set("1\u{202f}2\u{205f}3\u{3000}4").unwrap(), vec![1, 2, 3, 4]);
}

#[test]
fn other_separators_are_part_of_the_word() {
    assert_eq!(offender("1\u{200b}2"), "1\u{200b}2");
    assert_eq!(offender("1,2"), "1,2");
    assert_eq!(offender("3 1\u{1c}2"), "1\u{1c}2");
}

#[test]
fn text_without_words_gives_no_numbers() {
    assert_eq!(number_set("").unwrap(), Vec::<i64>::new());
    assert_eq!(number_set(" \n\t ").unwrap(), Vec::<i64>::new());
}

#[test]
fn signs_and_leading_zeros_are_read() {
    assert_eq!(number_set("+5 -5 0 -0 +0 007 -0012").unwrap(), vec![5, -5, 0, 0, 0, 7, -12]);
}

#[test]
fn the_bounds_of_64_bits_are_read() {
    assert_eq!(
        number_set("9223372036854775807 -9223372036854775808").unwrap(),
        vec![i64::MAX, i64::MIN]
    );
    assert_eq!(number_set("+9223372036854775807").unwrap(), vec![i64::MAX]);
    assert_eq!(number_set("0000000000000000000000009223372036854775807").unwrap(), vec![i64::MAX]);
}

#[test]
fn numbers_out_of_range_are_refused() {
    assert_eq!(offender("9223372036854775808"), "9223372036854775808");
    assert_eq!(offender("+9223372036854775808"), "+9223372036854775808");
    assert_eq!(offender("-9223372036854775809"), "-9223372036854775809");
    assert_eq!(offender("1 99999999999999999999999999999999999999999 2"), "99999999999999999999999999999999999999999");
    assert_eq!(offender("-170141183460469231731687303715884105729"), "-170141183460469231731687303715884105729");
}

#[test]
fn the_first_invalid_word_is_reported() {
    assert_eq!(offender("12 abc 7 def"), "abc");
    assert_eq!(offender("1.5"), "1.5");
    assert_eq!(offender("7 8 9x"), "9x");
    assert_eq!(offender("x9 8"), "x9");
    assert_eq!(offender("1 2 3 -"), "-");
    assert_eq!(offender("+ 1"), "+");
    assert_eq!(offender("1 --2"), "--2");
    assert_eq!(offender("1 +-2"), "+-2");
    assert_eq!(offender("5- 6"), "5-");
    assert_eq!(offender("1_000"), "1_000");
    assert_eq!(offender("0x10"), "0x10");
    assert_eq!(offender("\u{663}"), "\u{663}");
    assert_eq!(offender("12\u{ff11}"), "12\u{ff11}");
}

#[test]
fn number_set_agrees_with_the_standard_reading() {
    let texts = [
        "1 2 3", " 42", "-7\n", "+", "-", "", "1e3", "١٢٣", "12 34 five", "0", "-0", "00", "+1 -1",
        "9223372036854775807", "9223372036854775808", "-9223372036854775808", "-9223372036854775809",
        "18446744073709551616", "1\u{a0}2", "1\u{feff}2", "3 . 4", "٣ 4",
    ];
    for text in texts {
        let mut expected = Ok(Vec::new());
        for word in text.split_whitespace() {
            match word.parse::<i64>() {
                Ok(value) => {
                    if let Ok(values) = expected.as_mut() {
                        values.push(value);
                    }
                }
                Err(_) => {
                    expected = Err(word.to_string());
                    break;
                }
            }
        }
        let found = match number_set(text) {
            Ok(values) => Ok(values),
            Err(NumberSetError::InvalidNumber(word)) => Err(word),
        };
        assert_eq!(found, expected, "{text:?}");
    }
}

#[test]
fn decimal_numbers_are_named() {
    assert_eq!(reason_for_invalid_number("1.5"), InvalidReason::Decimal);
    assert_eq!(reason_for_invalid_number("-1.5"), InvalidReason::Decimal);
    assert_eq!(reason_for_invalid_number("1."), InvalidReason::Decimal);
    assert_eq!(reason_for_invalid_number(".5"), InvalidReason::Decimal);
    assert_eq!(reason_for_invalid_number("-.5"), InvalidReason::Decimal);
    assert_eq!(reason_for_invalid_number("123456789012345678901234567890.0"), InvalidReason::Decimal);
}

#[test]
fn whole_numbers_out_of_range_are_named_by_their_sign() {
    assert_eq!(reason_for_invalid_number("9223372036854775808"), InvalidReason::TooLarge);
    assert_eq!(reason_for_invalid_number("99999999999999999999"), InvalidReason::TooLarge);
    assert_eq!(reason_for_invalid_number("-9223372036854775809"), InvalidReason::TooLow);
    assert_eq!(reason_for_invalid_number("-99999999999999999999"), InvalidReason::TooLow);
}

#[test]
fn other_words_are_no_numbers() {
    assert_eq!(reason_for_invalid_number(""), InvalidReason::NotANumber);
    assert_eq!(reason_for_invalid_number("."), InvalidReason::NotANumber);
    assert_eq!(reason_for_invalid_number("-"), InvalidReason::NotANumber);
    assert_eq!(reason_for_invalid_number("-."), InvalidReason::NotANumber);
    assert_eq!(reason_for_invalid_number("1.2.3"), InvalidReason::NotANumber);
    assert_eq!(reason_for_invalid_number("--5"), InvalidReason::NotANumber);
    assert_eq!(reason_for_invalid_number("5-"), InvalidReason::NotANumber);
    assert_eq!(reason_for_invalid_number("+99999999999999999999"), InvalidReason::NotANumber);
    assert_eq!(reason_for_invalid_number("abc"), InvalidReason::NotANumber);
    assert_eq!(reason_for_invalid_number("1 2"), InvalidReason::NotANumber);
    assert_eq!(reason_for_invalid_number("12\n"), InvalidReason::NotANumber);
}

#[test]
fn the_reason_goes_by_form_alone() {
    assert_eq!(reason_for_invalid_number("12"), InvalidReason::TooLarge);
    assert_eq!(reason_for_invalid_number("-12"), InvalidReason::TooLow);
    assert_eq!(reason_for_invalid_number("\u{663}\u{664}"), InvalidReason::TooLarge);
}

#[test]
fn classify_prefers_the_decimal_form() {
    assert_eq!(classify(true, false, false), InvalidReason::Decimal);
    assert_eq!(classify(true, true, true), InvalidReason::Decimal);
    assert_eq!(classify(false, true, true), InvalidReason::TooLow);
    assert_eq!(classify(false, true, false), InvalidReason::TooLarge);
    assert_eq!(classify(false, false, true), InvalidReason::NotANumber);
    assert_eq!(classify(false, false, false), InvalidReason::NotANumber);
}

#[test]
fn messages_name_the_reason() {
    assert_eq!(
        message(InvalidReason::Decimal, "1.5"),
        "Decimal numbers are not allowed. Work in terms of whole cents, not fractional dollars"
    );
    assert_eq!(
        message(InvalidReason::TooLow, "-99999999999999999999"),
        format!("Number is too low: the program can only handle down to {}", i64::MIN)
    );
    assert_eq!(
        message(InvalidReason::TooLarge, "99999999999999999999"),
        format!("Number is too large: the program can only handle up to {}", i64::MAX)
    );
    assert_eq!(message(InvalidReason::NotANumber, "a-b"), "Invalid number: a-b");
    assert_eq!(message(InvalidReason::NotANumber, ""), "Invalid number: ");
}

#[test]
fn the_message_for_an_offender_from_a_list() {
    let word = offender("17 4.25 9");
    assert_eq!(word, "4.25");
    let text = message(reason_for_invalid_number(&word), &word);
    assert!(text.starts_with("Decimal numbers are not allowed."));
}

#[test]
fn the_target_field_keeps_digits_minus_and_point() {
    let typed = "-12.5 cents\n\r+7,\u{663}";
    let kept: String = typed.chars().filter(|c| allowed_in_target(*c)).collect();
    assert_eq!(kept, "-12.57");
    for c in "0123456789-.".chars() {
        assert!(allowed_in_target(c));
    }
    for c in "/:+, \n\rxe\u{663}\u{ff11}".chars() {
        assert!(!allowed_in_target(c));
    }
}

#[test]
fn the_numbers_field_keeps_line_ends_too() {
    let typed = "100\r\n-50 \t3.5;\n";
    let kept: String = typed.chars().filter(|c| allowed_in_numbers(*c)).collect();
    assert_eq!(kept, "100\r\n-503.5\n");
    for c in "0123456789-.\r\n".chars() {
        assert!(allowed_in_numbers(c));
    }
    for c in " \t+,\u{b}\u{c}\u{85}".chars() {
        assert!(!allowed_in_numbers(c));
    }
}

#[test]
fn the_form_offers_the_search_when_both_fields_are_read() {
    match gathering_input("250", "100\n200\n-50\n300", false) {
        FormView::Calculate { disabled, target, entries } => {
            assert!(!disabled);
            assert_eq!(target, Some(250));
            assert_eq!(entries, vec![100, 200, -50, 300]);
        }
        other => panic!("unexpected view {other:?}"),
    }
}

#[test]
fn the_button_is_disabled_after_a_click() {
    assert!(matches!(
        gathering_input("250", "100\n200", true),
        FormView::Calculate { disabled: true, target: Some(250), .. }
    ));
}

#[test]
fn the_button_is_disabled_while_a_field_is_empty() {
    match gathering_input("", "1 2", false) {
        FormView::Calculate { disabled, target, entries } => {
            assert!(disabled);
            assert_eq!(target, None);
            assert_eq!(entries, vec![1, 2]);
        }
        other => panic!("unexpected view {other:?}"),
    }
    match gathering_input("5", "\n\n", false) {
        FormView::Calculate { disabled, target, entries } => {
            assert!(disabled);
            assert_eq!(target, Some(5));
            assert!(entries.is_empty());
        }
        other => panic!("unexpected view {other:?}"),
    }
    assert!(matches!(gathering_input("", "", false), FormView::Calculate { disabled: true, .. }));
}

#[test]
fn an_invalid_number_in_the_list_is_told() {
    match gathering_input("250", "100\n2.5\n-\n", false) {
        FormView::InvalidNumber { offender, reason } => {
            assert_eq!(offender, "2.5");
            assert_eq!(reason, InvalidReason::Decimal);
        }
        other => panic!("unexpected view {other:?}"),
    }
    match gathering_input("", "-9223372036854775809", true) {
        FormView::InvalidNumber { offender, reason } => {
            assert_eq!(offender, "-9223372036854775809");
            assert_eq!(reason, InvalidReason::TooLow);
        }
        other => panic!("unexpected view {other:?}"),
    }
}

#[test]
fn an_invalid_target_is_told_first() {
    assert!(matches!(
        gathering_input("1.5", "1 2 x", false),
        FormView::InvalidTarget { reason: InvalidReason::Decimal }
    ));
    assert!(matches!(
        gathering_input("9223372036854775808", "1", false),
        FormView::InvalidTarget { reason: InvalidReason::TooLarge }
    ));
    assert!(matches!(
        gathering_input("-", "1", false),
        FormView::InvalidTarget { reason: InvalidReason::NotANumber }
    ));
    assert!(matches!(
        gathering_input(" 5", "1", false),
        FormView::InvalidTarget { reason: InvalidReason::NotANumber }
    ));
}
