use splitter::amount::Amount;
use splitter::text::{
    count_brackets, is_keyword, is_whitespace, label_of, same_text, split_words, MAX_BRACKETS,
};

#[test]
fn amount_parse_reads_decimal_numerals() {
    assert_eq!(Amount::parse("20"), Some(Amount { micros: 20_000_000 }));
    assert_eq!(Amount::parse("6.50"), Some(Amount { micros: 6_500_000 }));
    assert_eq!(Amount::parse("48.00"), Some(Amount { micros: 48_000_000 }));
    assert_eq!(Amount::parse("0.000001"), Some(Amount { micros: 1 }));
    assert_eq!(Amount::parse("+5"), Some(Amount { micros: 5_000_000 }));
    assert_eq!(Amount::parse("5."), Some(Amount { micros: 5_000_000 }));
    assert_eq!(Amount::parse(".5"), Some(Amount { micros: 500_000 }));
    assert_eq!(Amount::parse("+.5"), Some(Amount { micros: 500_000 }));
    assert_eq!(Amount::parse("0"), Some(Amount { micros: 0 }));
    assert_eq!(Amount::parse("007.123456"), Some(Amount { micros: 7_123_456 }));
    assert_eq!(Amount::parse("1.2500000000"), Some(Amount { micros: 1_250_000 }));
}

#[test]
fn amount_parse_refuses_what_is_no_numeral() {
    for token in [
        "", "+", ".", "+.", "-5", "--5", "++5", "1.2.3", "1,5", "12a", "a12", "1 2", "$5", "٣",
        "e3", ".e3", "1e", "1e+", "1e-", "1e1.5", "1e 3", "1ee3", "1e3e3", "1e+-3", "+e1", "1f",
        "inf", "infinity", "NaN", "nan", "0x10", "1_000",
    ] {
        assert_eq!(Amount::parse(token), None, "{token:?}");
    }
}

#[test]
fn amount_parse_reads_exponents() {
    assert_eq!(Amount::parse("1e3"), Some(Amount { micros: 1_000_000_000 }));
    assert_eq!(Amount::parse("1E3"), Some(Amount { micros: 1_000_000_000 }));
    assert_eq!(Amount::parse("1e+3"), Some(Amount { micros: 1_000_000_000 }));
    assert_eq!(Amount::parse("2e-1"), Some(Amount { micros: 200_000 }));
    assert_eq!(Amount::parse("1.5e2"), Some(Amount { micros: 150_000_000 }));
    assert_eq!(Amount::parse("5.e1"), Some(Amount { micros: 50_000_000 }));
    assert_eq!(Amount::parse(".5e1"), Some(Amount { micros: 5_000_000 }));
    assert_eq!(Amount::parse("+12.34e0"), Some(Amount { micros: 12_340_000 }));
    assert_eq!(Amount::parse("1e-6"), Some(Amount { micros: 1 }));
    assert_eq!(Amount::parse("123456789e-9"), Some(Amount { micros: 123_457 }));
    assert_eq!(Amount::parse("0.0000000001e10"), Some(Amount { micros: 1_000_000 }));
    assert_eq!(Amount::parse("1e13"), Some(Amount { micros: 10_000_000_000_000_000_000 }));
    assert_eq!(Amount::parse("1e14"), None);
    assert_eq!(Amount::parse("1e00000000000000000000000000003"), Some(Amount { micros: 1_000_000_000 }));
}

#[test]
fn amount_parse_reads_exponents_of_any_size() {
    assert_eq!(Amount::parse("0e99999999999999999999999999"), Some(Amount { micros: 0 }));
    assert_eq!(Amount::parse("0.000e18446744073709551616"), Some(Amount { micros: 0 }));
    assert_eq!(Amount::parse("1e99999999999999999999999999"), None);
    assert_eq!(Amount::parse("0.001e18446744073709551616"), None);
    assert_eq!(Amount::parse("1e-99999999999999999999999999"), Some(Amount { micros: 0 }));
    assert_eq!(Amount::parse("9e-18446744073709551616"), Some(Amount { micros: 0 }));
    assert_eq!(Amount::parse("1e18446744073709551615"), None);
    assert_eq!(Amount::parse("1e-18446744073709551615"), Some(Amount { micros: 0 }));
    assert_eq!(Amount::parse("0e18446744073709551615"), Some(Amount { micros: 0 }));
    assert_eq!(Amount::parse("1e20"), None);
    assert_eq!(Amount::parse("1e19"), None);
    assert_eq!(Amount::parse("0.0000000000000000001e32"), Some(Amount { micros: 10_000_000_000_000_000_000 }));
}

#[test]
fn amount_parse_rounds_to_the_nearest_millionth() {
    assert_eq!(Amount::parse("0.0000001"), Some(Amount { micros: 0 }));
    assert_eq!(Amount::parse("0.0000004999"), Some(Amount { micros: 0 }));
    assert_eq!(Amount::parse("0.0000005"), Some(Amount { micros: 1 }));
    assert_eq!(Amount::parse("5e-7"), Some(Amount { micros: 1 }));
    assert_eq!(Amount::parse("4.9e-7"), Some(Amount { micros: 0 }));
    assert_eq!(Amount::parse("5e-8"), Some(Amount { micros: 0 }));
    assert_eq!(Amount::parse("1.1234564"), Some(Amount { micros: 1_123_456 }));
    assert_eq!(Amount::parse("1.1234565"), Some(Amount { micros: 1_123_457 }));
    assert_eq!(Amount::parse("1.1234567"), Some(Amount { micros: 1_123_457 }));
    assert_eq!(Amount::parse("1.1234560"), Some(Amount { micros: 1_123_456 }));
    assert_eq!(Amount::parse("0.9999995"), Some(Amount { micros: 1_000_000 }));
    assert_eq!(Amount::parse("0.99999949999"), Some(Amount { micros: 999_999 }));
}

#[test]
fn amount_parse_is_a_numeral_where_std_reads_a_finite_number() {
    let tokens = [
        "0", "1", "+1", "1.", ".1", "1.0", "01.10", "1e0", "1E0", "1e+0", "1e-0", "1.e1", ".1e1",
        "12.5e-1", "1e-3", "3.14159", "100", "1e5", "99.999", "e", ".", "", "+", "1e", "e1",
        "1.1.1", "1e1e1", "1e1.1", "abc", "1a", "a1", "1 ", " 1", "1,0", "1e+", "1e-", "+.e1",
        "0.5", "7.25", "48.00", "6.50", "1e2", "2.5E3", "+7.e0",
    ];
    for token in tokens {
        let ours = Amount::parse(token);
        match token.parse::<f64>() {
            Ok(value) => {
                let read = ours.unwrap_or_else(|| panic!("{token:?} is a numeral"));
                let rounded = (value * 1_000_000.0).round();
                assert_eq!(read.micros as f64, rounded, "{token:?}");
            }
            Err(_) => assert_eq!(ours, None, "{token:?}"),
        }
    }
}

#[test]
fn amount_parse_knows_the_range() {
    assert_eq!(Amount::parse("18446744073709.551615"), Some(Amount { micros: u64::MAX }));
    assert_eq!(Amount::parse("18446744073709.551616"), None);
    assert_eq!(Amount::parse("18446744073709.5516154"), Some(Amount { micros: u64::MAX }));
    assert_eq!(Amount::parse("18446744073709.5516155"), None);
    assert_eq!(Amount::parse("18446744073709551615e-6"), Some(Amount { micros: u64::MAX }));
    assert_eq!(Amount::parse("18446744073709551616e-6"), None);
    assert_eq!(Amount::parse("184467440737095516149e-7"), Some(Amount { micros: u64::MAX }));
    assert_eq!(Amount::parse("18446744073710"), None);
    assert_eq!(Amount::parse("18446744073709"), Some(Amount { micros: 18_446_744_073_709_000_000 }));
    assert_eq!(Amount::parse("99999999999999999999999999999999"), None);
    assert_eq!(
        Amount::parse("000000000000000000000000000000001"),
        Some(Amount { micros: 1_000_000 })
    );
}

#[test]
fn amount_to_text_is_the_shortest_numeral() {
    assert_eq!(Amount { micros: 20_000_000 }.to_text(), "20");
    assert_eq!(Amount { micros: 6_500_000 }.to_text(), "6.5");
    assert_eq!(Amount { micros: 0 }.to_text(), "0");
    assert_eq!(Amount { micros: 1 }.to_text(), "0.000001");
    assert_eq!(Amount { micros: 1_050_000 }.to_text(), "1.05");
    assert_eq!(Amount { micros: 123_456_789 }.to_text(), "123.456789");
    assert_eq!(Amount { micros: u64::MAX }.to_text(), "18446744073709.551615");
}

#[test]
fn amount_text_is_read_back() {
    for micros in [0u64, 1, 9, 10, 999_999, 1_000_000, 1_000_001, 12_340_000, u64::MAX - 1, u64::MAX]
    {
        let amount = Amount { micros };
        assert_eq!(Amount::parse(&amount.to_text()), Some(amount), "{micros}");
    }
}

#[test]
fn whitespace_is_what_std_calls_whitespace() {
    for code in 0u32..0x3100 {
        if let Some(c) = char::from_u32(code) {
            assert_eq!(is_whitespace(c), c.is_whitespace(), "{code:#x}");
        }
    }
}

#[test]
fn split_words_is_what_std_split_whitespace_gives() {
    for line in ["", "  ", "a", " a", "a ", "a b", "  ribeye \t steak\u{a0}20\n", "x\u{3000}y"] {
        let expected: Vec<String> = line.split_whitespace().map(|s| s.to_string()).collect();
        assert_eq!(split_words(line), expected, "{line:?}");
    }
}

#[test]
fn keyword_match_ignores_ascii_case_only() {
    assert!(is_keyword("Done", "done"));
    assert!(is_keyword("DONE", "done"));
    assert!(!is_keyword("dona", "done"));
    assert!(!is_keyword("don", "done"));
    assert!(!is_keyword("donee", "done"));
    assert!(!is_keyword("d\u{d6}ne", "d\u{f6}ne"));
    assert!(same_text("abc", "abc"));
    assert!(!same_text("abc", "abd"));
    assert!(!same_text("abc", "ab"));
}

#[test]
fn brackets_are_counted() {
    assert_eq!(count_brackets(""), 0);
    assert_eq!(count_brackets("steak"), 0);
    assert_eq!(count_brackets("(a) (b) ((c"), 4);
    assert_eq!(count_brackets(")))"), 0);
    assert_eq!(count_brackets("\u{ff08}[{<"), 0);
}

#[test]
fn label_is_the_title_case_form() {
    assert_eq!(label_of("steak sandwich"), "Steak Sandwich");
    assert_eq!(label_of("way of the dragon"), "Way of the Dragon");
    assert_eq!(label_of("soup (of the day)"), "Soup (Of the Day)");
    assert_eq!(label_of(""), "");
}

#[test]
fn label_of_a_text_with_many_brackets_is_the_text() {
    let most = format!("{}steak", "(".repeat(MAX_BRACKETS));
    assert_eq!(label_of(&most), format!("{}Steak", "(".repeat(MAX_BRACKETS)));
    let spread = format!("{}steak", "(a ".repeat(MAX_BRACKETS));
    assert_ne!(label_of(&spread), spread);
    let more = format!("{}steak", "(".repeat(MAX_BRACKETS + 1));
    assert_eq!(label_of(&more), more);
    let spread_more = format!("{}steak", "(a ".repeat(MAX_BRACKETS + 1));
    assert_eq!(label_of(&spread_more), spread_more);
    let long = format!("{}steak", "(".repeat(100_000));
    assert_eq!(label_of(&long), long);
}
