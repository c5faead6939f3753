use splitter::actions::InputAction;
use splitter::amount::Amount;
use splitter::charges::Charge;
use splitter::ledger::{Effect, Ledger};

fn amount(value: f64) -> Amount {
    Amount { micros: (value * 1_000_000.0).round() as u64 }
}

fn charge(name: &str, cost: f64) -> Charge {
    Charge::new(name.to_string(), amount(cost))
}

fn add(name: &str, cost: f64) -> InputAction {
    InputAction::AddCharge { charge: charge(name, cost) }
}

fn sum_of_all(ledger: &Ledger) -> u64 {
    ledger.accounts().iter().flat_map(|a| a.charges.iter()).map(|c| c.cost.micros).sum()
}

#[test]
fn new_ledger_is_empty() {
    let ledger = Ledger::new();
    assert_eq!(ledger.accounts().len(), 0);
    assert_eq!(ledger.subtotal(), amount(0.0));
    assert!(!ledger.has("Ann"));
    assert_eq!(ledger.last("Ann"), None);
}

#[test]
fn add_opens_an_account_and_raises_the_subtotal() {
    let mut ledger = Ledger::new();
    assert_eq!(ledger.apply(add("soup", 4.0), "Ann"), Effect::Added);
    assert_eq!(ledger.apply(add("tea", 2.5), "Bob"), Effect::Added);
    assert_eq!(ledger.apply(add("bread", 1.0), "Ann"), Effect::Added);
    assert_eq!(ledger.subtotal(), amount(7.5));
    assert_eq!(ledger.accounts().len(), 2);
    assert_eq!(ledger.accounts()[0].person, "Ann");
    assert_eq!(ledger.accounts()[0].charges, vec![charge("soup", 4.0), charge("bread", 1.0)]);
    assert_eq!(ledger.accounts()[1].person, "Bob");
    assert_eq!(ledger.accounts()[1].charges, vec![charge("tea", 2.5)]);
    assert!(ledger.has("Ann"));
    assert!(!ledger.has("ann"));
}

#[test]
fn delete_last_takes_the_newest_charge_of_the_person() {
    let mut ledger = Ledger::new();
    ledger.apply(add("soup", 4.0), "Ann");
    ledger.apply(add("tea", 2.5), "Bob");
    ledger.apply(add("bread", 1.0), "Ann");
    assert_eq!(
        ledger.apply(InputAction::DeleteLastCharge, "Ann"),
        Effect::Removed(charge("bread", 1.0))
    );
    assert_eq!(ledger.subtotal(), amount(6.5));
    assert_eq!(
        ledger.apply(InputAction::DeleteLastCharge, "Ann"),
        Effect::Removed(charge("soup", 4.0))
    );
    assert_eq!(ledger.subtotal(), amount(2.5));
    assert_eq!(ledger.apply(InputAction::DeleteLastCharge, "Ann"), Effect::NoOp);
    assert_eq!(ledger.apply(InputAction::DeleteLastCharge, "Cid"), Effect::NoOp);
    assert_eq!(ledger.subtotal(), amount(2.5));
    assert_eq!(ledger.accounts().len(), 2);
    assert_eq!(ledger.accounts()[0].charges, vec![]);
}

#[test]
fn print_last_changes_nothing() {
    let mut ledger = Ledger::new();
    assert_eq!(ledger.apply(InputAction::PrintLastCharge, "Ann"), Effect::NoOp);
    ledger.apply(add("soup", 4.0), "Ann");
    ledger.apply(add("bread", 1.0), "Ann");
    assert_eq!(
        ledger.apply(InputAction::PrintLastCharge, "Ann"),
        Effect::Shown(Some(charge("bread", 1.0)))
    );
    assert_eq!(ledger.last("Ann"), Some(&charge("bread", 1.0)));
    ledger.apply(InputAction::DeleteLastCharge, "Ann");
    ledger.apply(InputAction::DeleteLastCharge, "Ann");
    assert_eq!(ledger.apply(InputAction::PrintLastCharge, "Ann"), Effect::Shown(None));
    assert_eq!(ledger.apply(InputAction::PrintLastCharge, "Bob"), Effect::NoOp);
    assert_eq!(ledger.subtotal(), amount(0.0));
}

#[test]
fn other_actions_change_nothing() {
    let mut ledger = Ledger::new();
    ledger.apply(add("soup", 4.0), "Ann");
    assert_eq!(ledger.apply(InputAction::Done, "Ann"), Effect::NoOp);
    assert_eq!(
        ledger.apply(InputAction::DeleteByIndex { indices: vec!["1".to_string()] }, "Ann"),
        Effect::Unsupported
    );
    assert_eq!(
        ledger.apply(
            InputAction::AssignCharge { name: "Bob".to_string(), indices: vec!["1".to_string()] },
            "Ann"
        ),
        Effect::Unsupported
    );
    assert_eq!(ledger.subtotal(), amount(4.0));
    assert_eq!(ledger.accounts()[0].charges, vec![charge("soup", 4.0)]);
}

#[test]
fn subtotal_is_the_sum_of_all_charges_after_every_step() {
    let mut ledger = Ledger::new();
    let persons = ["Ann", "Bob", "Cid"];
    let mut seed: u64 = 7;
    for step in 0..400u64 {
        seed = seed.wrapping_mul(6364136223846793005).wrapping_add(1442695040888963407);
        let person = persons[((seed >> 33) % 3) as usize];
        if (seed >> 40) % 3 == 0 {
            ledger.apply(InputAction::DeleteLastCharge, person);
        } else {
            let cost = Amount { micros: (seed >> 20) % 50_000_000 };
            assert!(ledger.has_room_for(cost));
            ledger.apply(
                InputAction::AddCharge { charge: Charge::new(format!("item {step}"), cost) },
                person,
            );
        }
        assert_eq!(ledger.subtotal().micros, sum_of_all(&ledger));
    }
}

#[test]
fn room_is_what_is_left_of_the_range() {
    let mut ledger = Ledger::new();
    assert!(ledger.has_room_for(Amount { micros: u64::MAX }));
    ledger.add("Ann", Charge::new("gold".to_string(), Amount { micros: u64::MAX - 5 }));
    assert!(ledger.has_room_for(Amount { micros: 5 }));
    assert!(!ledger.has_room_for(Amount { micros: 6 }));
    assert_eq!(
        ledger.delete_last("Ann"),
        Some(Charge::new("gold".to_string(), Amount { micros: u64::MAX - 5 }))
    );
    assert_eq!(ledger.delete_last("Ann"), None);
    assert_eq!(ledger.subtotal(), amount(0.0));
}
