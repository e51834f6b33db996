use mandelbrot_generator::config::{
    validate_resolution, get_auto_threads, resolve_threads, threads_parser, ConfigError,
};

#[test]
fn parses_plain_numbers() {
    assert_eq!(threads_parser("0"), Ok(0));
    assert_eq!(threads_parser("4"), Ok(4));
    assert_eq!(threads_parser("16"), Ok(16));
    assert_eq!(threads_parser("1234567"), Ok(1234567));
}

#[test]
fn parses_plus_sign_and_leading_zeros() {
    assert_eq!(threads_parser("+8"), Ok(8));
    assert_eq!(threads_parser("007"), Ok(7));
    assert_eq!(threads_parser("+000"), Ok(0));
}

#[test]
fn parses_the_largest_number() {
    let largest: String = usize::MAX.to_string();
    assert_eq!(threads_parser(&largest), Ok(usize::MAX));
}

#[test]
fn rejects_numbers_that_do_not_fit() {
    assert!(threads_parser("340282366920938463463374607431768211456").is_err());
    let largest: String = usize::MAX.to_string();
    let beyond: String = format!("{largest}0");
    assert!(threads_parser(&beyond).is_err());
    let mut next: String = largest.clone();
    let last: char = next.pop().unwrap();
    // the largest number ends in 5, on every word size
    assert_eq!(last, '5');
    next.push('6');
    assert!(threads_parser(&next).is_err());
}

#[test]
fn rejects_what_is_no_number() {
    assert!(threads_parser("").is_err());
    assert!(threads_parser("+").is_err());
    assert!(threads_parser("-").is_err());
    assert!(threads_parser("-1").is_err());
    assert!(threads_parser("-0").is_err());
    assert!(threads_parser("++1").is_err());
    assert!(threads_parser("1+").is_err());
    assert!(threads_parser(" 4").is_err());
    assert!(threads_parser("4 ").is_err());
    assert!(threads_parser("1_000").is_err());
    assert!(threads_parser("0x10").is_err());
    assert!(threads_parser("four").is_err());
    assert!(threads_parser("4.0").is_err());
    assert!(threads_parser("\u{ff14}").is_err());
    assert!(threads_parser("4\u{e9}").is_err());
}

#[test]
fn rejection_quotes_the_argument() {
    assert_eq!(
        threads_parser("abc"),
        Err(String::from("`abc` isn't a unsigned number"))
    );
    assert_eq!(threads_parser(""), Err(String::from("`` isn't a unsigned number")));
    assert_eq!(
        threads_parser("-3"),
        Err(String::from("`-3` isn't a unsigned number"))
    );
    assert_eq!(
        threads_parser("x\u{e9}"),
        Err(String::from("`x\u{e9}` isn't a unsigned number"))
    );
}

#[test]
fn agrees_with_the_standard_parser() {
    let texts: Vec<&str> = vec![
        "", "0", "1", "+1", "-1", "+", "-", "00", "+00012", "12a", "a12", " 1", "1 ", "1\n",
        "18446744073709551615", "18446744073709551616", "4294967295", "4294967296",
        "99999999999999999999999", "+-1", "1e3", "\u{661}",
    ];
    for text in texts {
        assert_eq!(threads_parser(text).ok(), text.parse::<usize>().ok(), "{text:?}");
    }
}

#[test]
fn automatic_choice() {
    assert_eq!(get_auto_threads(Some(8)), 8);
    assert_eq!(get_auto_threads(Some(1)), 1);
    assert_eq!(get_auto_threads(None), 1);
    assert_eq!(get_auto_threads(Some(0)), 1);
}

#[test]
fn nought_asks_for_the_automatic_choice() {
    assert_eq!(resolve_threads(0, Some(12)), 12);
    assert_eq!(resolve_threads(0, None), 1);
    assert_eq!(resolve_threads(3, Some(12)), 3);
    assert_eq!(resolve_threads(3, None), 3);
    assert_eq!(resolve_threads(1000, Some(2)), 1000);
}

#[test]
fn resolution_of_nought_is_turned_down() {
    assert_eq!(validate_resolution(0), Err(ConfigError::EmptyImage));
}

#[test]
fn usual_resolutions_pass() {
    assert_eq!(validate_resolution(1), Ok(()));
    assert_eq!(validate_resolution(4), Ok(()));
    assert_eq!(validate_resolution(2048), Ok(()));
    assert_eq!(validate_resolution(16384), Ok(()));
}

#[test]
fn resolution_beyond_memory_is_turned_down() {
    assert_eq!(validate_resolution(u32::MAX), Err(ConfigError::ImageTooLarge));
    // the largest side whose samples still fit
    let mut side: u128 = 1;
    while 3 * (side + 1) * (side + 1) <= isize::MAX as u128 && side < u32::MAX as u128 {
        side *= 2;
    }
    while 3 * side * side > isize::MAX as u128 {
        side -= 1;
    }
    assert_eq!(validate_resolution(side as u32), Ok(()));
    if side < u32::MAX as u128 {
        assert_eq!(validate_resolution(side as u32 + 1), Err(ConfigError::ImageTooLarge));
    }
}

#[test]
fn errors_in_words() {
    assert_eq!(
        ConfigError::EmptyImage.message(),
        String::from("the resolution must be at least 1")
    );
    assert_eq!(
        ConfigError::ImageTooLarge.message(),
        String::from("the resolution is too large for this machine")
    );
}
