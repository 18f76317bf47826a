//! Reading entries from text: whole numbers in decimal, separated by white space.

use vstd::prelude::*;

verus! {

/// Why a text is not a list of entries.
#[derive(Debug)]
pub enum NumberSetError {
    /// This word of the text is not a whole number that fits in 64 bits.
    InvalidNumber(String),
}

/// Whether `c` is white space in the sense of Unicode.
pub open spec fn is_white_space(c: char) -> bool {
    let code = c as u32;
    ||| 0x09 <= code <= 0x0D
    ||| code == 0x20
    ||| code == 0x85
    ||| code == 0xA0
    ||| code == 0x1680
    ||| 0x2000 <= code <= 0x200A
    ||| code == 0x2028
    ||| code == 0x2029
    ||| code == 0x202F
    ||| code == 0x205F
    ||| code == 0x3000
}

/// Whether `c` is one of the digits `0` to `9`.
pub open spec fn is_digit(c: char) -> bool {
    0x30 <= c as u32 <= 0x39
}

/// Whether `text` holds digits only.
pub open spec fn all_digits(text: Seq<char>) -> bool {
    forall|i: int| 0 <= i < text.len() ==> is_digit(#[trigger] text[i])
}

/// The number that the digits of `digits` write in decimal.
pub open spec fn digits_value(digits: Seq<char>) -> int
    decreases digits.len(),
{
    if digits.len() == 0 {
        0
    } else {
        digits_value(digits.drop_last()) * 10 + (digits.last() as u32 - 0x30)
    }
}

/// The number that `word` writes: an optional sign, then at least one digit, and a value
/// that fits in 64 bits. Any other word writes no number.
pub open spec fn parsed(word: Seq<char>) -> Option<i64> {
    let signed = word.len() > 0 && (word[0] == '-' || word[0] == '+');
    let digits = if signed {
        word.skip(1)
    } else {
        word
    };
    let value = if signed && word[0] == '-' {
        -digits_value(digits)
    } else {
        digits_value(digits)
    };
    if digits.len() > 0 && all_digits(digits) && i64::MIN <= value <= i64::MAX {
        Some(value as i64)
    } else {
        None
    }
}

/// A pass over `text` from the left: the words that have ended, and the word that the end
/// of `text` is in (empty when it is in none).
pub open spec fn scan(text: Seq<char>) -> (Seq<Seq<char>>, Seq<char>)
    decreases text.len(),
{
    if text.len() == 0 {
        (Seq::empty(), Seq::empty())
    } else {
        let (ended, open) = scan(text.drop_last());
        if !is_white_space(text.last()) {
            (ended, open.push(text.last()))
        } else if open.len() > 0 {
            (ended.push(open), Seq::empty())
        } else {
            (ended, open)
        }
    }
}

/// The words of `text`: its longest stretches without white space, in order.
pub open spec fn words(text: Seq<char>) -> Seq<Seq<char>> {
    let (ended, open) = scan(text);
    if open.len() > 0 {
        ended.push(open)
    } else {
        ended
    }
}

/// Whether `word` is not empty and holds no white space.
pub open spec fn is_word(word: Seq<char>) -> bool {
    &&& word.len() > 0
    &&& forall|i: int| 0 <= i < word.len() ==> !is_white_space(#[trigger] word[i])
}

/// Every word of a text is a stretch without white space, and not empty.
pub proof fn words_hold_no_white_space(text: Seq<char>)
    ensures
        forall|k: int| 0 <= k < words(text).len() ==> is_word(#[trigger] words(text)[k]),
{
    lemma_scan_holds_words(text);
}

proof fn lemma_scan_holds_words(text: Seq<char>)
    ensures
        forall|k: int| 0 <= k < scan(text).0.len() ==> is_word(#[trigger] scan(text).0[k]),
        forall|i: int| 0 <= i < scan(text).1.len() ==> !is_white_space(#[trigger] scan(text).1[i]),
    decreases text.len(),
{
    if text.len() > 0 {
        let before = scan(text.drop_last());
        let after = scan(text);
        lemma_scan_holds_words(text.drop_last());
        assert forall|k: int| 0 <= k < after.0.len() implies is_word(#[trigger] after.0[k]) by {
            if k < before.0.len() {
                assert(after.0[k] == before.0[k]);
            } else {
                assert(after.0[k] == before.1);
            }
        }
        assert forall|i: int| 0 <= i < after.1.len() implies !is_white_space(
            #[trigger] after.1[i],
        ) by {
            if i < before.1.len() {
                assert(after.1[i] == before.1[i]);
            }
        }
    }
}

/// Whether `values` are the numbers that `words` write, word by word.
pub open spec fn all_parsed(words: Seq<Seq<char>>, values: Seq<i64>) -> bool {
    &&& values.len() == words.len()
    &&& forall|k: int| 0 <= k < words.len() ==> parsed(#[trigger] words[k]) == Some(values[k])
}

/// Whether `offender` is the first of `words` that writes no number.
pub open spec fn first_invalid(words: Seq<Seq<char>>, offender: Seq<char>) -> bool {
    exists|k: int|
        0 <= k < words.len() && #[trigger] words[k] == offender && parsed(offender) is None
            && forall|j: int| 0 <= j < k ==> parsed(#[trigger] words[j]) is Some
}

/// Decides whether `c` is white space.
fn white_space(c: char) -> (r: bool)
    ensures
        r == is_white_space(c),
{
    let code = c as u32;
    (0x09 <= code && code <= 0x0D) || code == 0x20 || code == 0x85 || code == 0xA0 || code
        == 0x1680 || (0x2000 <= code && code <= 0x200A) || code == 0x2028 || code == 0x2029
        || code == 0x202F || code == 0x205F || code == 0x3000
}

/// The characters of `text`, in order.
fn chars_of(text: &str) -> (chars: Vec<char>)
    ensures
        chars@ == text@,
{
    let mut chars: Vec<char> = Vec::new();
    for c in it: text.chars()
        invariant
            chars@ == it.seq().take(it.index()),
            it.seq() == text@,
    {
        chars.push(c);
    }
    chars
}

/// The digits read so far write no more than all the digits do.
proof fn lemma_digits_grow(digits: Seq<char>, k: int)
    requires
        all_digits(digits),
        0 <= k <= digits.len(),
    ensures
        0 <= digits_value(digits.take(k)) <= digits_value(digits),
    decreases digits.len() - k,
{
    if k == digits.len() {
        assert(digits.take(k) =~= digits);
        lemma_digits_not_negative(digits);
    } else {
        lemma_digits_grow(digits, k + 1);
        assert(digits.take(k + 1).drop_last() =~= digits.take(k));
        assert(is_digit(digits[k]));
        lemma_digits_not_negative(digits.take(k));
    }
}

proof fn lemma_digits_not_negative(digits: Seq<char>)
    requires
        all_digits(digits),
    ensures
        0 <= digits_value(digits),
    decreases digits.len(),
{
    if digits.len() > 0 {
        assert(is_digit(digits.last()));
        lemma_digits_not_negative(digits.drop_last());
    }
}

/// Reads the number that the characters from `start` to `end` write.
fn parse_word(chars: &Vec<char>, start: usize, end: usize) -> (number: Option<i64>)
    requires
        start < end <= chars@.len(),
    ensures
        number == parsed(chars@.subrange(start as int, end as int)),
{
    let ghost word = chars@.subrange(start as int, end as int);
    let first = chars[start];
    assert(word[0] == first);
    let negative = first == '-';
    let from = if first == '-' || first == '+' {
        start + 1
    } else {
        start
    };
    let ghost digits = chars@.subrange(from as int, end as int);
    assert(digits =~= if from > start {
        word.skip(1)
    } else {
        word
    });
    assert(from > start <==> word[0] == '-' || word[0] == '+');
    if from == end {
        return None;
    }
    let mut value: i128 = 0;
    let mut i = from;
    assert(digits.take(0) =~= Seq::<char>::empty());
    while i < end
        invariant
            start < end,
            from <= i <= end <= chars@.len(),
            word == chars@.subrange(start as int, end as int),
            digits == chars@.subrange(from as int, end as int),
            from > start <==> word[0] == '-' || word[0] == '+',
            digits == if from > start {
                word.skip(1)
            } else {
                word
            },
            all_digits(digits.take(i - from)),
            value == digits_value(digits.take(i - from)),
            0 <= value <= 0x8000_0000_0000_0000,
        decreases end - i,
    {
        let code = chars[i] as u32;
        assert(digits[i - from] == chars@[i as int]);
        if code < 0x30 || code > 0x39 {
            return None;
        }
        let ghost longer = digits.take(i - from + 1);
        assert(longer.drop_last() =~= digits.take(i - from));
        value = value * 10 + (code - 0x30) as i128;
        if value > 0x8000_0000_0000_0000 {
            proof {
                if all_digits(digits) {
                    lemma_digits_grow(digits, i - from + 1);
                }
            }
            return None;
        }
        i = i + 1;
    }
    assert(digits.take(i - from) =~= digits);
    if negative {
        Some((-value) as i64)
    } else if value > 0x7fff_ffff_ffff_ffff {
        None
    } else {
        Some(value as i64)
    }
}

/// Reads the word from `start` to `end` of `numbers`, whose characters are `chars`.
fn read_word(numbers: &str, chars: &Vec<char>, start: usize, end: usize) -> (outcome: Result<
    i64,
    NumberSetError,
>)
    requires
        chars@ == numbers@,
        start < end <= chars@.len(),
    ensures
        match outcome {
            Ok(value) => parsed(chars@.subrange(start as int, end as int)) == Some(value),
            Err(NumberSetError::InvalidNumber(offender)) => offender@ == chars@.subrange(
                start as int,
                end as int,
            ) && parsed(offender@) is None,
        },
{
    match parse_word(chars, start, end) {
        Some(value) => Ok(value),
        None => Err(NumberSetError::InvalidNumber(numbers.substring_char(start, end).to_owned())),
    }
}

/// The words that have ended by `i` have ended by every later point too, and a word that
/// is open at `i` is the next to end when white space or the end of the text follows.
proof fn lemma_words_from(text: Seq<char>, i: int, j: int)
    requires
        0 <= i <= j <= text.len(),
        scan(text.take(i)).1.len() == 0 || i == text.len() || is_white_space(text[i]),
    ensures
        words(text.take(i)).len() <= words(text.take(j)).len(),
        forall|k: int|
            0 <= k < words(text.take(i)).len() ==> words(text.take(j))[k] == words(
                text.take(i),
            )[k],
        i < j ==> scan(text.take(j)).0.len() >= words(text.take(i)).len(),
    decreases j - i,
{
    if i < j {
        lemma_words_from(text, i, j - 1);
        assert(text.take(j).drop_last() =~= text.take(j - 1));
    }
}

/// Reads a list of whole numbers from `numbers`, in which white space separates them.
///
/// When every word writes a number that fits in 64 bits, the numbers are returned in the
/// order of the words. Otherwise the first word that does not is returned as the error.
pub fn number_set(numbers: &str) -> (outcome: Result<Vec<i64>, NumberSetError>)
    ensures
        match outcome {
            Ok(values) => all_parsed(words(numbers@), values@),
            Err(NumberSetError::InvalidNumber(offender)) => first_invalid(
                words(numbers@),
                offender@,
            ),
        },
{
    let chars = chars_of(numbers);
    let ghost text = chars@;
    let mut values: Vec<i64> = Vec::new();
    let mut start: usize = 0;
    let mut at: usize = 0;
    assert(text.take(0) =~= Seq::<char>::empty());
    while at < chars.len()
        invariant
            text == chars@,
            text == numbers@,
            start <= at <= chars.len(),
            scan(text.take(at as int)).1 == text.subrange(start as int, at as int),
            all_parsed(scan(text.take(at as int)).0, values@),
        decreases chars.len() - at,
    {
        let ghost seen = text.take(at as int);
        let ghost open = text.subrange(start as int, at as int);
        proof {
            assert(text.take(at + 1).drop_last() =~= seen);
        }
        if white_space(chars[at]) {
            if start < at {
                match read_word(numbers, &chars, start, at) {
                    Ok(value) => {
                        values.push(value);
                    },
                    Err(error) => {
                        proof {
                            lemma_words_from(text, at as int, text.len() as int);
                            assert(text.take(text.len() as int) =~= text);
                            let k = scan(seen).0.len() as int;
                            assert(words(seen)[k] == open);
                            assert(words(text)[k] == open);
                        }
                        return Err(error);
                    },
                }
            }
            start = at + 1;
            assert(text.subrange(start as int, at + 1) =~= Seq::<char>::empty());
        } else {
            assert(text.subrange(start as int, at + 1) =~= open.push(text[at as int]));
        }
        at = at + 1;
    }
    assert(text.take(at as int) =~= text);
    if start < at {
        match read_word(numbers, &chars, start, at) {
            Ok(value) => {
                values.push(value);
            },
            Err(error) => {
                proof {
                    let k = scan(text).0.len() as int;
                    assert(words(text)[k] == text.subrange(start as int, at as int));
                }
                return Err(error);
            },
        }
    }
    Ok(values)
}

/// Why a word is not accepted as an entry.
#[derive(Clone, Copy, Debug, PartialEq, Eq, Structural)]
pub enum InvalidReason {
    /// The word writes a number with a decimal point.
    Decimal,
    /// The word writes a whole number below the least that 64 bits hold.
    TooLow,
    /// The word writes a whole number above the greatest that 64 bits hold.
    TooLarge,
    /// The word writes no number at all.
    NotANumber,
}

/// The regular expression for a number with a decimal point: an optional minus sign, then
/// digits with a point before, between or after them.
pub open spec fn decimal_pattern() -> Seq<char> {
    "^-?((\\d+\\.\\d*)|(\\d*\\.\\d+))$"@
}

/// The regular expression for a whole number: an optional minus sign, then digits.
pub open spec fn whole_pattern() -> Seq<char> {
    "^-?\\d+$"@
}

/// What the `regex` crate finds for a pattern and a text: nothing when the pattern is no
/// regular expression that it accepts, else whether the expression matches in the text.
pub uninterp spec fn pattern_found(pattern: Seq<char>, text: Seq<char>) -> Option<bool>;

/// `regex::Regex::new` on `pattern` and, where that gives an expression,
/// `regex::Regex::is_match` of the expression on `text`.
#[verifier::external_body]
fn find_pattern(pattern: &str, text: &str) -> (found: Option<bool>)
    ensures
        found == pattern_found(pattern@, text@),
{
    match regex::Regex::new(pattern) {
        Ok(expression) => Some(expression.is_match(text)),
        Err(_) => None,
    }
}

/// The reason that goes with what the two patterns found in a word and with its sign.
pub open spec fn reason_of(decimal: bool, whole: bool, negative: bool) -> InvalidReason {
    if decimal {
        InvalidReason::Decimal
    } else if whole {
        if negative {
            InvalidReason::TooLow
        } else {
            InvalidReason::TooLarge
        }
    } else {
        InvalidReason::NotANumber
    }
}

/// Names the reason for a word of which it is known whether it has the form of a decimal
/// number, whether it has the form of a whole number, and whether it starts with a minus
/// sign. A word in the form of a whole number that was not accepted is out of range.
pub fn classify(decimal: bool, whole: bool, negative: bool) -> (reason: InvalidReason)
    ensures
        reason == reason_of(decimal, whole, negative),
{
    if decimal {
        InvalidReason::Decimal
    } else if whole {
        if negative {
            InvalidReason::TooLow
        } else {
            InvalidReason::TooLarge
        }
    } else {
        InvalidReason::NotANumber
    }
}

/// The sentence that tells a user why `offender` is no entry.
pub open spec fn message_text(reason: InvalidReason, offender: Seq<char>) -> Seq<char> {
    match reason {
        InvalidReason::Decimal =>
            "Decimal numbers are not allowed. Work in terms of whole cents, not fractional dollars"@,
        InvalidReason::TooLow =>
            "Number is too low: the program can only handle down to -9223372036854775808"@,
        InvalidReason::TooLarge =>
            "Number is too large: the program can only handle up to 9223372036854775807"@,
        InvalidReason::NotANumber => "Invalid number: "@ + offender,
    }
}

/// Writes the sentence that tells a user why `offender` is no entry.
pub fn message(reason: InvalidReason, offender: &str) -> (text: String)
    ensures
        text@ == message_text(reason, offender@),
{
    match reason {
        InvalidReason::Decimal => String::from_str(
            "Decimal numbers are not allowed. Work in terms of whole cents, not fractional dollars",
        ),
        InvalidReason::TooLow => String::from_str(
            "Number is too low: the program can only handle down to -9223372036854775808",
        ),
        InvalidReason::TooLarge => String::from_str(
            "Number is too large: the program can only handle up to 9223372036854775807",
        ),
        InvalidReason::NotANumber => String::from_str("Invalid number: ").concat(offender),
    }
}

/// Whether `text` starts with a minus sign.
fn starts_with_minus(text: &str) -> (r: bool)
    ensures
        r == (text@.len() > 0 && text@[0] == '-'),
{
    !text.is_empty() && text.get_char(0) == '-'
}

/// Tells why `offender`, a word that was not accepted as an entry, is no entry.
pub fn reason_for_invalid_number(offender: &str) -> (reason: InvalidReason)
    ensures
        reason == reason_for(offender@),
{
    let decimal = find_pattern("^-?((\\d+\\.\\d*)|(\\d*\\.\\d+))$", offender);
    let whole = find_pattern("^-?\\d+$", offender);
    classify(
        matches!(decimal, Some(true)),
        matches!(whole, Some(true)),
        starts_with_minus(offender),
    )
}

/// Whether a field for one number keeps `c`: a digit, a minus sign or a point.
pub open spec fn kept_in_target(c: char) -> bool {
    is_digit(c) || c == '-' || c == '.'
}

/// Whether a field for a list of numbers keeps `c`: what a field for one number keeps, and
/// the two characters that end a line.
pub open spec fn kept_in_numbers(c: char) -> bool {
    kept_in_target(c) || c == '\r' || c == '\n'
}

/// Decides whether the field for the target keeps a character that was typed into it.
pub fn allowed_in_target(c: char) -> (kept: bool)
    ensures
        kept == kept_in_target(c),
{
    let code = c as u32;
    (0x30 <= code && code <= 0x39) || c == '-' || c == '.'
}

/// Decides whether the field for the numbers keeps a character that was typed into it.
pub fn allowed_in_numbers(c: char) -> (kept: bool)
    ensures
        kept == kept_in_numbers(c),
{
    allowed_in_target(c) || c == '\r' || c == '\n'
}

/// What the entry form shows below its two fields.
#[derive(Debug)]
pub enum FormView {
    /// The button that starts the search for `target` among `entries`. The target is
    /// missing while its field is empty.
    Calculate { disabled: bool, target: Option<i64>, entries: Vec<i64> },
    /// A notice that `offender`, a word of the list of numbers, is no entry.
    InvalidNumber { offender: String, reason: InvalidReason },
    /// A notice that the target is no entry.
    InvalidTarget { reason: InvalidReason },
}

/// The reason that goes with `offender`, by what the two patterns find in it.
pub open spec fn reason_for(offender: Seq<char>) -> InvalidReason {
    reason_of(
        pattern_found(decimal_pattern(), offender) == Some(true),
        pattern_found(whole_pattern(), offender) == Some(true),
        offender.len() > 0 && offender[0] == '-',
    )
}

/// Whether `view` is what the form shows for the two fields as they stand, and for whether
/// the button was clicked before.
///
/// A target that is neither empty nor a number is told first. Else the first word among
/// the numbers that is no number is told. Else the button is shown, disabled after a click
/// and as long as the target or the numbers are missing.
pub open spec fn form_shows(
    target_input: Seq<char>,
    numbers_input: Seq<char>,
    button_clicked: bool,
    view: FormView,
) -> bool {
    match view {
        FormView::InvalidTarget { reason } => {
            &&& target_input.len() > 0
            &&& parsed(target_input) is None
            &&& reason == reason_for(target_input)
        },
        FormView::InvalidNumber { offender, reason } => {
            &&& target_input.len() == 0 || parsed(target_input) is Some
            &&& first_invalid(words(numbers_input), offender@)
            &&& reason == reason_for(offender@)
        },
        FormView::Calculate { disabled, target, entries } => {
            &&& target_input.len() == 0 || parsed(target_input) is Some
            &&& target == parsed(target_input)
            &&& all_parsed(words(numbers_input), entries@)
            &&& disabled == (button_clicked || target_input.len() == 0 || entries@.len() == 0)
        },
    }
}

/// Reads the number that `text` writes as a whole.
fn parse_text(text: &str) -> (number: Option<i64>)
    ensures
        number == parsed(text@),
{
    let chars = chars_of(text);
    if chars.len() == 0 {
        None
    } else {
        assert(chars@.subrange(0, chars@.len() as int) =~= chars@);
        parse_word(&chars, 0, chars.len())
    }
}

/// Decides what the entry form shows for the two fields as they stand.
pub fn gathering_input(target_input: &str, numbers_input: &str, button_clicked: bool) -> (view:
    FormView)
    ensures
        form_shows(target_input@, numbers_input@, button_clicked, view),
{
    let target = parse_text(target_input);
    if target.is_none() && !target_input.is_empty() {
        return FormView::InvalidTarget { reason: reason_for_invalid_number(target_input) };
    }
    match number_set(numbers_input) {
        Ok(entries) => {
            let disabled = button_clicked || target_input.is_empty() || entries.len() == 0;
            FormView::Calculate { disabled, target, entries }
        },
        Err(NumberSetError::InvalidNumber(offender)) => {
            let reason = reason_for_invalid_number(offender.as_str());
            FormView::InvalidNumber { offender, reason }
        },
    }
}

} // verus!
