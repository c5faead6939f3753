//! Charges: the priced line items that a bill is made of, and their entry
//! by hand, person by person.

use crate::actions::{parse, parse_line, ActionView, InputAction, ParseError};
use crate::amount::Amount;
use crate::ledger::{ledger_after, Effect, Ledger, LedgerView};
use crate::text::{label_of, label_text, texts};
use crate::utils::{get_values_by_delim, pieces_of};
use vstd::prelude::*;

verus! {

/// A named, priced line item.
#[derive(Debug, PartialEq)]
pub struct Charge {
    pub name: String,
    pub cost: Amount,
    pub is_assigned: bool,
}

/// What a charge holds: its name as a sequence of characters, its cost in
/// millionths, and whether it has been assigned to a person.
pub struct ChargeView {
    pub name: Seq<char>,
    pub cost: nat,
    pub is_assigned: bool,
}

/// The error of reading a charge from a line that does not hold one.
#[derive(Debug, PartialEq, Eq)]
pub struct ParseChargeError;

impl View for Charge {
    type V = ChargeView;

    open spec fn view(&self) -> ChargeView {
        ChargeView {
            name: self.name@,
            cost: self.cost.micros as nat,
            is_assigned: self.is_assigned,
        }
    }
}

impl Clone for Charge {
    fn clone(&self) -> (r: Self)
        ensures
            r == *self,
    {
        Charge { name: self.name.clone(), cost: self.cost, is_assigned: self.is_assigned }
    }
}

/// The views of a sequence of charges.
pub open spec fn charge_views(charges: Seq<Charge>) -> Seq<ChargeView> {
    Seq::new(charges.len(), |i: int| charges[i]@)
}

/// The sum of the costs of `charges`, in millionths.
pub open spec fn total_cost(charges: Seq<ChargeView>) -> nat
    decreases charges.len(),
{
    if charges.len() == 0 {
        0
    } else {
        total_cost(charges.drop_last()) + charges.last().cost
    }
}

/// The first charges of a sequence cost no more than all of them.
pub proof fn lemma_total_cost_prefix(charges: Seq<ChargeView>, k: int)
    requires
        0 <= k <= charges.len(),
    ensures
        total_cost(charges.take(k)) <= total_cost(charges),
    decreases charges.len(),
{
    if k == charges.len() {
        assert(charges.take(k) =~= charges);
    } else {
        lemma_total_cost_prefix(charges.drop_last(), k);
        assert(charges.drop_last().take(k) =~= charges.take(k));
    }
}

/// Whether every charge of `charges` is assigned.
pub open spec fn all_assigned(charges: Seq<ChargeView>) -> bool {
    forall|i: int| 0 <= i < charges.len() ==> (#[trigger] charges[i]).is_assigned
}

/// The charge that `line` enters, where it enters one.
pub open spec fn charge_of_line(line: Seq<char>) -> Option<ChargeView> {
    match parse_line(line) {
        Ok(ActionView::AddCharge { charge }) => Some(charge),
        _ => None,
    }
}

impl Charge {
    /// A charge that is not assigned yet.
    pub fn new(name: String, cost: Amount) -> (charge: Self)
        ensures
            charge.name == name,
            charge.cost == cost,
            !charge.is_assigned,
    {
        Self { name, cost, is_assigned: false }
    }

    /// The charge that `line` enters, where it enters one.
    pub fn from_line(line: &str) -> (r: Option<Charge>)
        ensures
            r is Some <==> charge_of_line(line@) is Some,
            r is Some ==> r->0@ == charge_of_line(line@)->0,
    {
        match parse(line) {
            Ok(InputAction::AddCharge { charge }) => Some(charge),
            _ => None,
        }
    }
}

impl std::str::FromStr for Charge {
    type Err = ParseChargeError;

    /// Reads a charge from a line of the form name, blank, cost.
    fn from_str(s: &str) -> (r: Result<Self, Self::Err>)
        ensures
            r is Ok <==> charge_of_line(s@) is Some,
            r is Ok ==> r->Ok_0@ == charge_of_line(s@)->0,
    {
        match Charge::from_line(s) {
            Some(charge) => Ok(charge),
            None => Err(ParseChargeError),
        }
    }
}

/// The entry of charges by hand: one person after the other enters charges
/// until done.
#[derive(Debug, PartialEq)]
pub struct EntrySession {
    persons: Vec<String>,
    current: usize,
    ledger: Ledger,
}

/// What an entry session holds: the persons in their order, how many of them
/// are done, and the ledger so far.
pub struct EntryView {
    pub persons: Seq<Seq<char>>,
    pub current: nat,
    pub ledger: LedgerView,
}

impl EntryView {
    /// No more persons are done than there are, and the ledger is
    /// consistent.
    pub open spec fn wf(self) -> bool {
        self.current <= self.persons.len() && self.ledger.wf()
    }

    /// Whether every person is done.
    pub open spec fn is_closed(self) -> bool {
        self.current >= self.persons.len()
    }

    /// The person whose charges are being entered.
    pub open spec fn person(self) -> Seq<char> {
        self.persons[self.current as int]
    }

    /// Whether the ledger can take a charge of the given cost without its
    /// subtotal leaving the range of an amount.
    pub open spec fn has_room_for(self, cost: nat) -> bool {
        self.ledger.subtotal + cost <= u64::MAX
    }
}

/// What a line did to an entry session.
#[derive(Debug, PartialEq)]
pub enum EntryOutcome {
    /// A charge was added; `label` is its name as it is shown, in title
    /// case.
    Added { label: String },
    /// The person's last charge is this one.
    Shown(Charge),
    /// The person has no charge to show.
    NothingToShow,
    /// The person's last charge was removed: this one.
    Removed(Charge),
    /// The person has no charge to remove.
    NothingToRemove,
    /// The action has no meaning while charges are entered by hand.
    Unsupported,
    /// The line is no action.
    Rejected(ParseError),
    /// The charge would take the subtotal out of the range of an amount;
    /// it was not added.
    TooLarge,
    /// The person is done, and the next person is up.
    NextPerson,
    /// Every person is done.
    Closed,
}

/// What an outcome holds.
pub enum EntryOutcomeView {
    Added { label: Seq<char> },
    Shown(ChargeView),
    NothingToShow,
    Removed(ChargeView),
    NothingToRemove,
    Unsupported,
    Rejected(ParseError),
    TooLarge,
    NextPerson,
    Closed,
}

impl View for EntryOutcome {
    type V = EntryOutcomeView;

    open spec fn view(&self) -> EntryOutcomeView {
        match self {
            EntryOutcome::Added { label } => EntryOutcomeView::Added { label: label@ },
            EntryOutcome::Shown(charge) => EntryOutcomeView::Shown(charge@),
            EntryOutcome::NothingToShow => EntryOutcomeView::NothingToShow,
            EntryOutcome::Removed(charge) => EntryOutcomeView::Removed(charge@),
            EntryOutcome::NothingToRemove => EntryOutcomeView::NothingToRemove,
            EntryOutcome::Unsupported => EntryOutcomeView::Unsupported,
            EntryOutcome::Rejected(e) => EntryOutcomeView::Rejected(*e),
            EntryOutcome::TooLarge => EntryOutcomeView::TooLarge,
            EntryOutcome::NextPerson => EntryOutcomeView::NextPerson,
            EntryOutcome::Closed => EntryOutcomeView::Closed,
        }
    }
}

/// The session after `line` was entered. A closed session stays as it is;
/// so does an open one on a line that is no action and on a charge that the
/// ledger has no room for. "done" moves on to the next person, and every
/// other action is applied to the ledger for the current person.
pub open spec fn entry_after(session: EntryView, line: Seq<char>) -> EntryView {
    if session.is_closed() {
        session
    } else {
        match parse_line(line) {
            Err(_) => session,
            Ok(ActionView::Done) => EntryView { current: session.current + 1, ..session },
            Ok(ActionView::AddCharge { charge }) => if session.has_room_for(charge.cost) {
                EntryView {
                    ledger: session.ledger.with_charge(session.person(), charge),
                    ..session
                }
            } else {
                session
            },
            Ok(action) => EntryView {
                ledger: ledger_after(session.ledger, action, session.person()),
                ..session
            },
        }
    }
}

/// What entering `line` reports.
pub open spec fn entry_outcome(session: EntryView, line: Seq<char>) -> EntryOutcomeView {
    if session.is_closed() {
        EntryOutcomeView::Closed
    } else {
        let charges = session.ledger.charges_of(session.person());
        match parse_line(line) {
            Err(e) => EntryOutcomeView::Rejected(e),
            Ok(ActionView::Done) => if session.current + 1 < session.persons.len() {
                EntryOutcomeView::NextPerson
            } else {
                EntryOutcomeView::Closed
            },
            Ok(ActionView::AddCharge { charge }) => if session.has_room_for(charge.cost) {
                EntryOutcomeView::Added { label: label_text(charge.name) }
            } else {
                EntryOutcomeView::TooLarge
            },
            Ok(ActionView::DeleteLastCharge) => if charges.len() > 0 {
                EntryOutcomeView::Removed(charges.last())
            } else {
                EntryOutcomeView::NothingToRemove
            },
            Ok(ActionView::PrintLastCharge) => if charges.len() > 0 {
                EntryOutcomeView::Shown(charges.last())
            } else {
                EntryOutcomeView::NothingToShow
            },
            Ok(ActionView::AssignCharge { .. }) => EntryOutcomeView::Unsupported,
            Ok(ActionView::DeleteByIndex { .. }) => EntryOutcomeView::Unsupported,
        }
    }
}

impl View for EntrySession {
    type V = EntryView;

    closed spec fn view(&self) -> EntryView {
        EntryView {
            persons: texts(self.persons@),
            current: self.current as nat,
            ledger: self.ledger@,
        }
    }
}

impl EntrySession {
    /// Whether the session is consistent: see `EntryView::wf`.
    pub open spec fn wf(&self) -> bool {
        self@.wf()
    }

    /// A session for the persons that `names` lists, separated by commas,
    /// with an empty ledger and the first person up.
    pub fn new(names: String) -> (session: EntrySession)
        ensures
            session.wf(),
            session@.persons == pieces_of(names@, ","@),
            session@.current == 0,
            session@.ledger.accounts.len() == 0,
            session@.ledger.subtotal == 0,
    {
        let persons = get_values_by_delim(names, ",");
        EntrySession { persons, current: 0, ledger: Ledger::new() }
    }

    /// Whether every person is done.
    pub fn is_closed(&self) -> (r: bool)
        ensures
            r == self@.is_closed(),
    {
        self.current >= self.persons.len()
    }

    /// The person whose charges are being entered, while there is one.
    pub fn current_person(&self) -> (person: Option<&String>)
        requires
            self.wf(),
        ensures
            person is Some <==> !self@.is_closed(),
            person is Some ==> person->0@ == self@.person(),
    {
        if self.current < self.persons.len() {
            Some(&self.persons[self.current])
        } else {
            None
        }
    }

    /// The ledger so far.
    pub fn ledger(&self) -> (ledger: &Ledger)
        ensures
            ledger@ == self@.ledger,
    {
        &self.ledger
    }

    /// Ends the session and hands out its ledger.
    pub fn into_ledger(self) -> (ledger: Ledger)
        ensures
            ledger@ == self@.ledger,
    {
        self.ledger
    }

    /// Enters one line: reads it as an action and applies the action for the
    /// current person.
    pub fn step(&mut self, line: &str) -> (outcome: EntryOutcome)
        requires
            old(self).wf(),
        ensures
            final(self).wf(),
            final(self)@ == entry_after(old(self)@, line@),
            outcome@ == entry_outcome(old(self)@, line@),
    {
        if self.current >= self.persons.len() {
            return EntryOutcome::Closed;
        }
        let action = match parse(line) {
            Ok(action) => action,
            Err(e) => { return EntryOutcome::Rejected(e); },
        };
        match action {
            InputAction::Done => {
                self.current = self.current + 1;
                if self.current < self.persons.len() {
                    EntryOutcome::NextPerson
                } else {
                    EntryOutcome::Closed
                }
            },
            InputAction::AddCharge { charge } => {
                if !self.ledger.has_room_for(charge.cost) {
                    return EntryOutcome::TooLarge;
                }
                let label = label_of(charge.name.as_str());
                self.ledger.add(self.persons[self.current].as_str(), charge);
                EntryOutcome::Added { label }
            },
            other => {
                let deleting = matches!(other, InputAction::DeleteLastCharge);
                match self.ledger.apply(other, self.persons[self.current].as_str()) {
                    Effect::Removed(charge) => EntryOutcome::Removed(charge),
                    Effect::Shown(Some(charge)) => EntryOutcome::Shown(charge),
                    Effect::Shown(None) => EntryOutcome::NothingToShow,
                    Effect::NoOp => if deleting {
                        EntryOutcome::NothingToRemove
                    } else {
                        EntryOutcome::NothingToShow
                    },
                    _ => EntryOutcome::Unsupported,
                }
            },
        }
    }
}

} // verus!
