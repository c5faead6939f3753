use splitter::actions::{InputAction, ParseError};
use splitter::amount::Amount;
use splitter::charges::Charge;
use splitter::indices::{delete_by_index, parse_index, sorted_descending, IndexResolutionError};
use splitter::ocr::{
    get_charges_from_fields, get_charges_from_text, is_expense_row, ExpenseField,
    ReconcileOutcome, ReconciliationSession,
};

fn amount(value: f64) -> Amount {
    Amount { micros: (value * 1_000_000.0).round() as u64 }
}

fn charge(name: &str, cost: f64) -> Charge {
    Charge::new(name.to_string(), amount(cost))
}

fn assigned(name: &str, cost: f64) -> Charge {
    Charge { name: name.to_string(), cost: amount(cost), is_assigned: true }
}

fn strings(items: &[&str]) -> Vec<String> {
    items.iter().map(|s| s.to_string()).collect()
}

fn abc() -> Vec<Charge> {
    vec![charge("A", 10.0), charge("B", 20.0), charge("C", 30.0)]
}

#[test]
fn read_test_receipt() {
    let data = String::from(
        "Lorem 6.50 \n
            Ipsum 7.50 \n
            Dolor Sit 48.00",
    );
    let actual = get_charges_from_text(data);
    let expected = [
        Charge {
            name: "Lorem".to_string(),
            cost: amount(6.5),
            is_assigned: false,
        },
        Charge {
            name: "Ipsum".to_string(),
            cost: amount(7.5),
            is_assigned: false,
        },
        Charge {
            name: "Dolor Sit".to_string(),
            cost: amount(48.00),
            is_assigned: false,
        },
    ];
    assert_eq!(actual, expected);
}

#[test]
fn receipt_text_lines_that_enter_no_charge_are_passed_over() {
    let data = "RECEIPT\r\nLorem 6.50\r\ndone\ndelete 1\nTOTAL\n\nassign Bob 1\nIpsum 3\n";
    assert_eq!(
        get_charges_from_text(data.to_string()),
        vec![charge("Lorem", 6.5), charge("Ipsum", 3.0)]
    );
    assert_eq!(get_charges_from_text(String::new()), vec![]);
}

#[test]
fn expense_rows_become_charges() {
    let field = |kind: &str, text: &str| ExpenseField { kind: kind.to_string(), text: text.to_string() };
    let fields = vec![
        field("ITEM", "Lorem"),
        field("PRICE", "6.50"),
        field("EXPENSE_ROW", "Lorem 6.50"),
        field("EXPENSE_ROW", "no price here"),
        field("expense_row", "Hidden 1"),
        field("OTHER", "Other 2"),
        field("EXPENSE_ROW", "Dolor Sit 48.00"),
        field("EXPENSE_ROW", "done"),
    ];
    assert_eq!(
        get_charges_from_fields(&fields),
        vec![charge("Lorem", 6.5), charge("Dolor Sit", 48.0)]
    );
    assert_eq!(get_charges_from_fields(&vec![]), vec![]);
}

#[test]
fn index_tokens() {
    assert_eq!(parse_index("1"), Some(1));
    assert_eq!(parse_index("+12"), Some(12));
    assert_eq!(parse_index("007"), Some(7));
    assert_eq!(parse_index("0"), Some(0));
    assert_eq!(parse_index(&usize::MAX.to_string()), Some(usize::MAX));
    for token in ["", "+", "-1", "1.0", "a", "1a", " 1", "99999999999999999999999999"] {
        assert_eq!(parse_index(token), None, "{token:?}");
        assert_eq!(token.parse::<usize>().ok(), None, "{token:?}");
    }
}

#[test]
fn descending_order() {
    assert_eq!(sorted_descending(&vec![]), Vec::<usize>::new());
    assert_eq!(sorted_descending(&vec![1, 3, 2]), vec![3, 2, 1]);
    assert_eq!(sorted_descending(&vec![5, 1, 5, 0, 9]), vec![9, 5, 5, 1, 0]);
}

#[test]
fn delete_one_and_three_leaves_two() {
    let mut candidates = abc();
    let removed = delete_by_index(&mut candidates, &strings(&["1", "3"]));
    assert_eq!(removed, Ok(vec![charge("C", 30.0), charge("A", 10.0)]));
    assert_eq!(candidates, vec![charge("B", 20.0)]);
}

#[test]
fn delete_does_not_depend_on_the_order_of_the_indices() {
    for indices in [["1", "3"], ["3", "1"]] {
        let mut candidates = abc();
        assert!(delete_by_index(&mut candidates, &strings(&indices)).is_ok());
        assert_eq!(candidates, vec![charge("B", 20.0)]);
    }
    for indices in [["1", "2", "3"], ["2", "3", "1"], ["3", "1", "2"], ["2", "1", "3"]] {
        let mut candidates = abc();
        assert!(delete_by_index(&mut candidates, &strings(&indices)).is_ok());
        assert_eq!(candidates, vec![]);
    }
}

#[test]
fn delete_with_a_bad_index_changes_nothing() {
    let mut candidates = abc();
    assert_eq!(
        delete_by_index(&mut candidates, &strings(&["1", "x", "y"])),
        Err(IndexResolutionError::NonNumeric { token: "x".to_string() })
    );
    assert_eq!(candidates, abc());
    assert_eq!(
        delete_by_index(&mut candidates, &strings(&["1", "4"])),
        Err(IndexResolutionError::OutOfRange { index: 4 })
    );
    assert_eq!(candidates, abc());
    assert_eq!(
        delete_by_index(&mut candidates, &strings(&["2", "0"])),
        Err(IndexResolutionError::OutOfRange { index: 0 })
    );
    assert_eq!(candidates, abc());
    assert_eq!(
        delete_by_index(&mut candidates, &strings(&["3", "3"])),
        Err(IndexResolutionError::OutOfRange { index: 3 })
    );
    assert_eq!(candidates, abc());
    assert_eq!(delete_by_index(&mut candidates, &vec![]), Ok(vec![]));
    assert_eq!(candidates, abc());
}

#[test]
fn delete_takes_an_index_given_twice_twice() {
    let mut candidates = abc();
    assert_eq!(
        delete_by_index(&mut candidates, &strings(&["1", "1"])),
        Ok(vec![charge("A", 10.0), charge("B", 20.0)])
    );
    assert_eq!(candidates, vec![charge("C", 30.0)]);
}

#[test]
fn session_deletes_by_index() {
    let mut session = ReconciliationSession::new(abc());
    assert_eq!(
        session.step("delete 1,3"),
        ReconcileOutcome::Removed(vec![charge("C", 30.0), charge("A", 10.0)])
    );
    assert_eq!(session.candidates(), &vec![charge("B", 20.0)]);
    assert_eq!(
        session.step("delete 2"),
        ReconcileOutcome::BadIndex(IndexResolutionError::OutOfRange { index: 2 })
    );
    assert_eq!(
        session.step("delete one"),
        ReconcileOutcome::BadIndex(IndexResolutionError::NonNumeric { token: "one".to_string() })
    );
    assert_eq!(session.candidates(), &vec![charge("B", 20.0)]);
}

#[test]
fn session_adds_a_candidate() {
    let mut session = ReconciliationSession::new(vec![]);
    assert_eq!(session.step("Missed Item 4.25"), ReconcileOutcome::Added);
    assert_eq!(session.candidates(), &vec![charge("Missed Item", 4.25)]);
    assert_eq!(session.ledger().subtotal(), amount(0.0));
}

#[test]
fn session_assigns_candidates() {
    let mut session = ReconciliationSession::new(abc());
    assert_eq!(
        session.step("assign Marlon 3,1"),
        ReconcileOutcome::Assigned {
            person: "Marlon".to_string(),
            charges: vec![assigned("C", 30.0), assigned("A", 10.0)]
        }
    );
    assert_eq!(
        session.candidates(),
        &vec![assigned("A", 10.0), charge("B", 20.0), assigned("C", 30.0)]
    );
    let ledger = session.ledger();
    assert_eq!(ledger.subtotal(), amount(40.0));
    assert_eq!(ledger.accounts().len(), 1);
    assert_eq!(ledger.accounts()[0].person, "Marlon");
    assert_eq!(ledger.accounts()[0].charges, vec![assigned("C", 30.0), assigned("A", 10.0)]);
}

#[test]
fn session_assignment_with_a_bad_index_changes_nothing() {
    let mut session = ReconciliationSession::new(abc());
    assert_eq!(
        session.step("assign Marlon 1,4,x"),
        ReconcileOutcome::BadIndex(IndexResolutionError::NonNumeric { token: "x".to_string() })
    );
    assert_eq!(
        session.step("assign Marlon 1,4,0"),
        ReconcileOutcome::BadIndex(IndexResolutionError::OutOfRange { index: 4 })
    );
    assert_eq!(
        session.step("assign Marlon 0"),
        ReconcileOutcome::BadIndex(IndexResolutionError::OutOfRange { index: 0 })
    );
    assert_eq!(session.candidates(), &abc());
    assert_eq!(session.ledger().accounts().len(), 0);
    assert_eq!(session.ledger().subtotal(), amount(0.0));
}

#[test]
fn session_assignment_beyond_the_range_changes_nothing() {
    let big = Charge::new("gold".to_string(), Amount { micros: u64::MAX });
    let mut session = ReconciliationSession::new(vec![big.clone(), charge("dust", 0.000001)]);
    assert_eq!(session.step("assign Ann 1,2"), ReconcileOutcome::TooLarge);
    assert_eq!(session.step("assign Ann 2,1"), ReconcileOutcome::TooLarge);
    assert_eq!(session.step("assign Ann 1,1"), ReconcileOutcome::TooLarge);
    assert_eq!(session.candidates(), &vec![big, charge("dust", 0.000001)]);
    assert_eq!(session.ledger().subtotal(), amount(0.0));
    assert!(matches!(session.step("assign Ann 1"), ReconcileOutcome::Assigned { .. }));
    assert_eq!(session.step("assign Bob 2"), ReconcileOutcome::TooLarge);
    assert_eq!(session.ledger().subtotal(), Amount { micros: u64::MAX });
}

#[test]
fn session_assigns_the_same_candidate_twice() {
    let mut session = ReconciliationSession::new(abc());
    assert_eq!(
        session.step("assign Ann 2,2"),
        ReconcileOutcome::Assigned {
            person: "Ann".to_string(),
            charges: vec![assigned("B", 20.0), assigned("B", 20.0)]
        }
    );
    assert_eq!(session.ledger().subtotal(), amount(40.0));
    assert_eq!(session.ledger().accounts()[0].charges.len(), 2);
}

#[test]
fn done_is_refused_while_a_candidate_is_not_assigned() {
    let mut session = ReconciliationSession::new(abc());
    assert_eq!(session.step("done"), ReconcileOutcome::UnassignedRemain);
    assert!(!session.is_closed());
    session.step("assign Ann 1,2");
    assert_eq!(session.step("Done"), ReconcileOutcome::UnassignedRemain);
    assert!(!session.is_closed());
    assert!(!session.all_assigned());
    session.step("assign Bob 3");
    assert!(session.all_assigned());
    assert_eq!(session.step("done"), ReconcileOutcome::Closed);
    assert!(session.is_closed());
    assert_eq!(session.step("Tea 3"), ReconcileOutcome::Closed);
    assert_eq!(session.step("nonsense"), ReconcileOutcome::Closed);
    assert_eq!(session.candidates().len(), 3);
    let ledger = session.into_ledger();
    assert_eq!(ledger.subtotal(), amount(60.0));
}

#[test]
fn done_is_accepted_after_the_unassigned_are_deleted() {
    let mut session = ReconciliationSession::new(abc());
    session.step("assign Ann 2");
    assert_eq!(session.step("done"), ReconcileOutcome::UnassignedRemain);
    session.step("delete 1,3");
    assert_eq!(session.step("done"), ReconcileOutcome::Closed);
}

#[test]
fn done_closes_a_session_without_candidates() {
    let mut session = ReconciliationSession::new(vec![]);
    assert_eq!(session.step("done"), ReconcileOutcome::Closed);
    assert!(session.is_closed());
}

#[test]
fn session_reports_what_it_does_not_support() {
    let mut session = ReconciliationSession::new(abc());
    assert_eq!(session.step("last"), ReconcileOutcome::Unsupported);
    assert_eq!(session.step("delete"), ReconcileOutcome::Unsupported);
    assert_eq!(session.step(""), ReconcileOutcome::Rejected(ParseError::NoPattern));
    assert_eq!(session.step("48"), ReconcileOutcome::Rejected(ParseError::MissingName));
    assert_eq!(session.step("what"), ReconcileOutcome::Rejected(ParseError::InvalidCost));
    assert_eq!(session.apply(InputAction::PrintLastCharge), ReconcileOutcome::Unsupported);
    assert_eq!(session.candidates(), &abc());
}

#[test]
fn delete_agrees_with_removing_one_by_one_from_the_highest_index() {
    let mut seed: u64 = 5;
    let mut next = |n: usize| {
        seed = seed.wrapping_mul(6364136223846793005).wrapping_add(1442695040888963407);
        ((seed >> 33) as usize) % n
    };
    for _ in 0..3000 {
        let len = next(6);
        let list: Vec<Charge> = (0..len).map(|i| charge(&format!("item {i}"), i as f64 + 1.0)).collect();
        let count = next(5);
        let indices: Vec<usize> = (0..count).map(|_| next(len + 2)).collect();
        let tokens: Vec<String> = indices.iter().map(|i| i.to_string()).collect();

        let mut order = indices.clone();
        order.sort();
        order.reverse();
        let mut expected = list.clone();
        let mut removed = Vec::new();
        let mut failed = None;
        for index in &order {
            if *index < 1 || *index > expected.len() {
                failed = Some(*index);
                break;
            }
            removed.push(expected.remove(index - 1));
        }

        let mut actual = list.clone();
        let result = delete_by_index(&mut actual, &tokens);
        match failed {
            Some(index) => {
                assert_eq!(result, Err(IndexResolutionError::OutOfRange { index }), "{indices:?}");
                assert_eq!(actual, list, "{indices:?}");
            }
            None => {
                assert_eq!(result, Ok(removed), "{indices:?}");
                assert_eq!(actual, expected, "{indices:?}");
            }
        }
    }
}

#[test]
fn expense_rows_are_told_by_their_kind() {
    assert!(is_expense_row("EXPENSE_ROW"));
    assert!(!is_expense_row("expense_row"));
    assert!(!is_expense_row("EXPENSE_ROW "));
    assert!(!is_expense_row("ITEM"));
    assert!(!is_expense_row(""));
}
