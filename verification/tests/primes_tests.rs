use dev_restaurant::num::IntParseError;
use dev_restaurant::primes::{convert_to_integer, is_prime, vect_prime_int_to_bool};

#[test]
fn prime() {
    let x = vec![900003701, 900007091, 59119, 59197, 64919, 56249, 48799, 43889];
    assert_eq!(
        vect_prime_int_to_bool(&x),
        vec![true, true, true, true, true, true, true, true]
    );
}

#[test]
fn non_prime() {
    let x = vec![581, 451, 13465, 18882, 581689, 6189811, 99931, 13775177];
    assert_eq!(
        vect_prime_int_to_bool(&x),
        vec![false, false, false, false, false, false, false, false]
    );
}

#[test]
fn prime_non_prime() {
    let x = vec![2, 5, 100, 200, 300, 301, 1001, 5167];
    assert_eq!(
        vect_prime_int_to_bool(&x),
        vec![true, true, false, false, false, false, false, true]
    );
}

#[test]
fn small_and_negative_inputs_follow_the_scan() {
    assert!(is_prime(&2));
    assert!(is_prime(&3));
    assert!(!is_prime(&9));
    assert!(is_prime(&1));
    assert!(!is_prime(&0));
    assert!(!is_prime(&-4));
    assert!(is_prime(&-3));
}

#[test]
fn convert_to_integer_parses_decimals() {
    assert_eq!(convert_to_integer("123"), Ok(123));
    assert_eq!(convert_to_integer("+7"), Ok(7));
    assert_eq!(convert_to_integer("-2147483648"), Ok(i32::MIN));
    assert_eq!(convert_to_integer("2147483647"), Ok(i32::MAX));
}

#[test]
fn convert_to_integer_reports_each_offence() {
    assert_eq!(convert_to_integer(""), Err(IntParseError::Empty));
    assert_eq!(convert_to_integer("+"), Err(IntParseError::InvalidDigit));
    assert_eq!(convert_to_integer("12a"), Err(IntParseError::InvalidDigit));
    assert_eq!(convert_to_integer(" 5"), Err(IntParseError::InvalidDigit));
    assert_eq!(convert_to_integer("2147483648"), Err(IntParseError::PosOverflow));
    assert_eq!(convert_to_integer("-2147483649"), Err(IntParseError::NegOverflow));
}
