use splitter::amount::Amount;
use splitter::billing::{
    apportion, read_bill_total, ApportionError, BillTotalError, Fraction, ReportLine,
};
use splitter::charges::Charge;
use splitter::ledger::Ledger;

fn amount(value: f64) -> Amount {
    Amount { micros: (value * 1_000_000.0).round() as u64 }
}

fn ledger_of(entries: &[(&str, f64)]) -> Ledger {
    let mut ledger = Ledger::new();
    for (person, cost) in entries {
        ledger.add(person, Charge::new(format!("item of {person}"), amount(*cost)));
    }
    ledger
}

fn ratio(fraction: &Fraction) -> f64 {
    fraction.numerator as f64 / fraction.denominator as f64
}

fn value(fraction: &Fraction) -> f64 {
    ratio(fraction) / 1_000_000.0
}

#[test]
fn alice_and_bob_split_the_fees_in_halves() {
    let ledger = ledger_of(&[("Alice", 10.0), ("Alice", 20.0), ("Bob", 30.0)]);
    assert_eq!(ledger.subtotal(), amount(60.0));
    let shares = apportion(&ledger, amount(72.0)).unwrap();
    assert_eq!(shares.len(), 2);

    let alice = &shares[0];
    assert_eq!(alice.person, "Alice");
    assert_eq!(alice.total_charges, amount(30.0));
    assert_eq!(alice.share, Fraction { numerator: 30_000_000, denominator: 60_000_000 });
    assert!(alice.share_is_partial);
    assert_eq!(
        alice.fees_owed,
        Fraction { numerator: 30_000_000 * 12_000_000, denominator: 60_000_000 }
    );
    assert_eq!(
        alice.total_owed,
        Fraction { numerator: 30_000_000 * 72_000_000, denominator: 60_000_000 }
    );
    assert_eq!(ratio(&alice.share), 0.5);
    assert_eq!(value(&alice.fees_owed), 6.0);
    assert_eq!(value(&alice.total_owed), 36.0);

    let bob = &shares[1];
    assert_eq!(bob.person, "Bob");
    assert_eq!(bob.total_charges, amount(30.0));
    assert_eq!(ratio(&bob.share), 0.5);
    assert_eq!(value(&bob.fees_owed), 6.0);
    assert_eq!(value(&bob.total_owed), 36.0);

    assert_eq!(value(&alice.total_owed) + value(&bob.total_owed), 72.0);
}

#[test]
fn breakdown_lists_the_charges_in_title_case() {
    let mut ledger = Ledger::new();
    ledger.add("Ann", Charge::new("steak sandwich".to_string(), amount(20.0)));
    ledger.add("Ann", Charge::new("glass of wine".to_string(), amount(8.0)));
    let shares = apportion(&ledger, amount(28.0)).unwrap();
    assert_eq!(
        shares[0].lines,
        vec![
            ReportLine { label: "Steak Sandwich".to_string(), cost: amount(20.0) },
            ReportLine { label: "Glass of Wine".to_string(), cost: amount(8.0) },
        ]
    );
    assert!(!shares[0].share_is_partial);
    assert_eq!(shares[0].fees_owed.numerator, 0);
    assert_eq!(value(&shares[0].total_owed), 28.0);
}

#[test]
fn what_is_owed_adds_up_to_the_total() {
    let ledger = ledger_of(&[
        ("Ann", 10.01),
        ("Bob", 3.33),
        ("Cid", 7.0),
        ("Ann", 0.000001),
        ("Dee", 19.99),
        ("Bob", 1.5),
    ]);
    let subtotal = ledger.subtotal().micros as u128;
    for total in [ledger.subtotal(), amount(50.0), amount(47.123457), Amount { micros: u64::MAX }] {
        let shares = apportion(&ledger, total).unwrap();
        let mut owed: u128 = 0;
        let mut fees: u128 = 0;
        for share in &shares {
            assert_eq!(share.total_owed.denominator as u128, subtotal);
            assert_eq!(share.fees_owed.denominator as u128, subtotal);
            assert_eq!(
                share.total_owed.numerator,
                share.total_charges.micros as u128 * subtotal + share.fees_owed.numerator
            );
            owed += share.total_owed.numerator;
            fees += share.fees_owed.numerator;
        }
        assert_eq!(owed, total.micros as u128 * subtotal);
        assert_eq!(fees, (total.micros as u128 - subtotal) * subtotal);
    }
}

#[test]
fn a_total_below_the_subtotal_is_refused() {
    let ledger = ledger_of(&[("Alice", 10.0), ("Alice", 20.0), ("Bob", 30.0)]);
    assert_eq!(read_bill_total("50", ledger.subtotal()), Err(BillTotalError::BelowSubtotal));
    assert_eq!(apportion(&ledger, amount(50.0)), Err(ApportionError::BelowSubtotal));
    assert_eq!(ledger.subtotal(), amount(60.0));
    assert_eq!(ledger.accounts().len(), 2);
    assert_eq!(read_bill_total("60", ledger.subtotal()), Ok(amount(60.0)));
    assert_eq!(read_bill_total(" 72.00\n", ledger.subtotal()), Ok(amount(72.0)));
}

#[test]
fn a_total_that_is_no_numeral_is_refused() {
    let subtotal = amount(60.0);
    for input in ["", "  ", "seventy", "72 dollars", "7 2", "$72", "72,00", "-72"] {
        assert_eq!(read_bill_total(input, subtotal), Err(BillTotalError::Unreadable), "{input:?}");
    }
}

#[test]
fn a_subtotal_of_zero_is_refused_where_there_are_accounts() {
    let mut ledger = ledger_of(&[("Ann", 5.0)]);
    ledger.delete_last("Ann");
    assert_eq!(apportion(&ledger, amount(0.0)), Err(ApportionError::ZeroSubtotal));
    assert_eq!(apportion(&ledger, amount(10.0)), Err(ApportionError::ZeroSubtotal));
    let free = ledger_of(&[("Ann", 0.0)]);
    assert_eq!(apportion(&free, amount(10.0)), Err(ApportionError::ZeroSubtotal));
}

#[test]
fn an_empty_ledger_has_an_empty_breakdown() {
    let ledger = Ledger::new();
    assert_eq!(apportion(&ledger, amount(0.0)), Ok(vec![]));
    assert_eq!(apportion(&ledger, amount(5.0)), Ok(vec![]));
}

#[test]
fn an_account_without_charges_owes_nothing() {
    let mut ledger = ledger_of(&[("Ann", 5.0), ("Bob", 3.0)]);
    ledger.delete_last("Bob");
    let shares = apportion(&ledger, amount(6.0)).unwrap();
    assert_eq!(shares[1].person, "Bob");
    assert_eq!(shares[1].lines, vec![]);
    assert_eq!(shares[1].total_charges, amount(0.0));
    assert_eq!(shares[1].total_owed.numerator, 0);
    assert!(shares[1].share_is_partial);
    assert_eq!(value(&shares[0].total_owed), 6.0);
}

#[test]
fn breakdown_shows_a_name_with_many_brackets_as_it_is() {
    let mut ledger = Ledger::new();
    let name = format!("{}steak", "(".repeat(100_000));
    ledger.add("Ann", Charge::new(name.clone(), amount(20.0)));
    ledger.add("Ann", Charge::new("(house) wine".to_string(), amount(8.0)));
    let statements = apportion(&ledger, amount(28.0)).unwrap();
    assert_eq!(
        statements[0].lines,
        vec![
            ReportLine { label: name, cost: amount(20.0) },
            ReportLine { label: "(House) Wine".to_string(), cost: amount(8.0) },
        ]
    );
}
