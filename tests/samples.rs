use ownership_verifier::samples::{
    celsius_to_fahrenheit, fahrenheit_to_celsius, i_am_returning_a_value, judge_guess,
    nth_fibonacci_number, parse_decimal, parse_guess, secret_number, verse, GuessOutcome,
    VerseLine,
};

#[test]
fn fibonacci_values() {
    assert_eq!(nth_fibonacci_number(8), 21);
    assert_eq!(nth_fibonacci_number(0), 0);
    assert_eq!(nth_fibonacci_number(1), 1);
    assert_eq!(nth_fibonacci_number(2), 1);
    assert_eq!(nth_fibonacci_number(-3), -3);
    assert_eq!(nth_fibonacci_number(30), 832040);
}

#[test]
fn returning_a_value() {
    assert_eq!(i_am_returning_a_value(), 19);
}

#[test]
fn temperature_conversions() {
    assert_eq!(celsius_to_fahrenheit(1), 33);
    assert_eq!(celsius_to_fahrenheit(100), 212);
    assert_eq!(celsius_to_fahrenheit(-40), -40);
    assert_eq!(fahrenheit_to_celsius(33), 0);
    assert_eq!(fahrenheit_to_celsius(212), 100);
    assert_eq!(fahrenheit_to_celsius(0), -17);
}

#[test]
fn verses_count_down() {
    assert_eq!(verse(0), vec![VerseLine::Opening(0), VerseLine::Gift(0)]);
    assert_eq!(
        verse(2),
        vec![
            VerseLine::Opening(2),
            VerseLine::Gift(2),
            VerseLine::Gift(1),
            VerseLine::And,
            VerseLine::Gift(0)
        ]
    );
    assert_eq!(verse(11).len(), 14);
}

#[test]
fn guesses_are_judged() {
    assert_eq!(judge_guess(3, 50), GuessOutcome::TooSmall);
    assert_eq!(judge_guess(51, 50), GuessOutcome::TooBig);
    assert_eq!(judge_guess(50, 50), GuessOutcome::Win);
}

#[test]
fn secret_numbers_are_in_range() {
    let mut seen = Vec::new();
    for _ in 0..200 {
        let s = secret_number();
        assert!((1..=100).contains(&s));
        if !seen.contains(&s) {
            seen.push(s);
        }
    }
    assert!(seen.len() > 1);
}

#[test]
fn guesses_are_parsed() {
    assert_eq!(parse_guess("  42\n"), Some(42));
    assert_eq!(parse_guess("\t+7 "), Some(7));
    assert_eq!(parse_guess("4294967295"), Some(4294967295));
    assert_eq!(parse_guess("4294967296"), None);
    assert_eq!(parse_guess("12a"), None);
    assert_eq!(parse_guess("   "), None);
    assert_eq!(parse_guess("-1"), None);
    assert_eq!(parse_decimal(" 5"), None);
    assert_eq!(parse_decimal("+"), None);
    assert_eq!(parse_decimal("007"), Some(7));
}
