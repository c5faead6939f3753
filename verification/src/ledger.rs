//! The ledger: each person's charges in the order they were added, and the
//! running subtotal of all of them.

use crate::actions::{ActionView, InputAction};
use crate::amount::Amount;
use crate::charges::{charge_views, total_cost, Charge, ChargeView};
use crate::text::same_text;
use vstd::prelude::*;

verus! {

/// One person's charges, oldest first.
#[derive(Debug, PartialEq)]
pub struct Account {
    pub person: String,
    pub charges: Vec<Charge>,
}

/// What an account holds.
pub struct AccountView {
    pub person: Seq<char>,
    pub charges: Seq<ChargeView>,
}

impl View for Account {
    type V = AccountView;

    open spec fn view(&self) -> AccountView {
        AccountView { person: self.person@, charges: charge_views(self.charges@) }
    }
}

/// The views of a sequence of accounts.
pub open spec fn account_views(accounts: Seq<Account>) -> Seq<AccountView> {
    Seq::new(accounts.len(), |i: int| accounts[i]@)
}

/// The sum of the costs of all charges of `accounts`, in millionths.
pub open spec fn ledger_total(accounts: Seq<AccountView>) -> nat
    decreases accounts.len(),
{
    if accounts.len() == 0 {
        0
    } else {
        ledger_total(accounts.drop_last()) + total_cost(accounts.last().charges)
    }
}

/// Whether no two accounts belong to the same person.
pub open spec fn distinct_persons(accounts: Seq<AccountView>) -> bool {
    forall|i: int, j: int|
        0 <= i < j < accounts.len() ==> (#[trigger] accounts[i]).person != (
        #[trigger] accounts[j]).person
}

/// The position of the first account of `person`; the number of accounts
/// where the person has none.
pub open spec fn position_of(accounts: Seq<AccountView>, person: Seq<char>) -> int
    decreases accounts.len(),
{
    if accounts.len() == 0 || accounts[0].person == person {
        0
    } else {
        1 + position_of(accounts.drop_first(), person)
    }
}

/// What a ledger holds: the accounts in the order in which their persons
/// first got a charge, and the subtotal.
pub struct LedgerView {
    pub accounts: Seq<AccountView>,
    pub subtotal: nat,
}

impl LedgerView {
    /// Each person has one account at most, and the subtotal is the sum of
    /// the costs of all charges.
    pub open spec fn wf(self) -> bool {
        &&& distinct_persons(self.accounts)
        &&& self.subtotal == ledger_total(self.accounts)
    }

    /// Whether `person` has an account.
    pub open spec fn has(self, person: Seq<char>) -> bool {
        position_of(self.accounts, person) < self.accounts.len()
    }

    /// The charges of `person`, oldest first; none where the person has no
    /// account.
    pub open spec fn charges_of(self, person: Seq<char>) -> Seq<ChargeView> {
        if self.has(person) {
            self.accounts[position_of(self.accounts, person)].charges
        } else {
            Seq::empty()
        }
    }

    /// The ledger with `charge` added at the end of the charges of `person`,
    /// whose account is opened at the end of the accounts where there was
    /// none.
    pub open spec fn with_charge(self, person: Seq<char>, charge: ChargeView) -> LedgerView {
        let i = position_of(self.accounts, person);
        LedgerView {
            accounts: if self.has(person) {
                self.accounts.update(
                    i,
                    AccountView { person, charges: self.accounts[i].charges.push(charge) },
                )
            } else {
                self.accounts.push(AccountView { person, charges: seq![charge] })
            },
            subtotal: self.subtotal + charge.cost,
        }
    }

    /// The ledger with `charges` added one after the other at the end of the
    /// charges of `person`.
    pub open spec fn with_charges(self, person: Seq<char>, charges: Seq<ChargeView>) -> LedgerView
        decreases charges.len(),
    {
        if charges.len() == 0 {
            self
        } else {
            self.with_charges(person, charges.drop_last()).with_charge(person, charges.last())
        }
    }

    /// The ledger without the last charge of `person`, who has one.
    pub open spec fn without_last(self, person: Seq<char>) -> LedgerView {
        let i = position_of(self.accounts, person);
        LedgerView {
            accounts: self.accounts.update(
                i,
                AccountView { person, charges: self.accounts[i].charges.drop_last() },
            ),
            subtotal: (self.subtotal - self.accounts[i].charges.last().cost) as nat,
        }
    }
}

/// What applying an action to a ledger did.
#[derive(Debug, PartialEq)]
pub enum Effect {
    /// The charge was added.
    Added,
    /// The person's last charge was removed: this one.
    Removed(Charge),
    /// The person's last charge, or none where the account is empty.
    Shown(Option<Charge>),
    /// Nothing was there to act on, or the action asks nothing of a ledger.
    NoOp,
    /// The action has no meaning for a ledger alone.
    Unsupported,
}

/// What an effect holds.
pub enum EffectView {
    Added,
    Removed(ChargeView),
    Shown(Option<ChargeView>),
    NoOp,
    Unsupported,
}

impl View for Effect {
    type V = EffectView;

    open spec fn view(&self) -> EffectView {
        match self {
            Effect::Added => EffectView::Added,
            Effect::Removed(charge) => EffectView::Removed(charge@),
            Effect::Shown(Some(charge)) => EffectView::Shown(Some(charge@)),
            Effect::Shown(None) => EffectView::Shown(None),
            Effect::NoOp => EffectView::NoOp,
            Effect::Unsupported => EffectView::Unsupported,
        }
    }
}

/// The ledger after `action` was applied for `person`. Only the entry of a
/// charge and the deletion of the last charge change a ledger.
pub open spec fn ledger_after(
    ledger: LedgerView,
    action: ActionView,
    person: Seq<char>,
) -> LedgerView {
    match action {
        ActionView::AddCharge { charge } => ledger.with_charge(person, charge),
        ActionView::DeleteLastCharge => if ledger.charges_of(person).len() > 0 {
            ledger.without_last(person)
        } else {
            ledger
        },
        _ => ledger,
    }
}

/// What applying `action` for `person` reports.
pub open spec fn effect_of(
    ledger: LedgerView,
    action: ActionView,
    person: Seq<char>,
) -> EffectView {
    match action {
        ActionView::AddCharge { charge } => EffectView::Added,
        ActionView::DeleteLastCharge => if ledger.charges_of(person).len() > 0 {
            EffectView::Removed(ledger.charges_of(person).last())
        } else {
            EffectView::NoOp
        },
        ActionView::PrintLastCharge => if !ledger.has(person) {
            EffectView::NoOp
        } else if ledger.charges_of(person).len() > 0 {
            EffectView::Shown(Some(ledger.charges_of(person).last()))
        } else {
            EffectView::Shown(None)
        },
        ActionView::Done => EffectView::NoOp,
        ActionView::AssignCharge { .. } => EffectView::Unsupported,
        ActionView::DeleteByIndex { .. } => EffectView::Unsupported,
    }
}

/// The first account of `person` is the one at `i`, where no account before
/// it is the person's.
pub proof fn lemma_position_found(accounts: Seq<AccountView>, person: Seq<char>, i: int)
    requires
        0 <= i <= accounts.len(),
        forall|j: int| 0 <= j < i ==> (#[trigger] accounts[j]).person != person,
        i < accounts.len() ==> accounts[i].person == person,
    ensures
        position_of(accounts, person) == i,
    decreases i,
{
    if i > 0 {
        let rest = accounts.drop_first();
        lemma_position_found(rest, person, i - 1);
    }
}

/// Replacing the charges of one account changes the total by the difference
/// of the two sums.
pub proof fn lemma_total_update(accounts: Seq<AccountView>, i: int, account: AccountView)
    requires
        0 <= i < accounts.len(),
    ensures
        ledger_total(accounts.update(i, account)) + total_cost(accounts[i].charges)
            == ledger_total(accounts) + total_cost(account.charges),
    decreases accounts.len(),
{
    let updated = accounts.update(i, account);
    if i == accounts.len() - 1 {
        assert(updated.drop_last() =~= accounts.drop_last());
    } else {
        lemma_total_update(accounts.drop_last(), i, account);
        assert(updated.drop_last() =~= accounts.drop_last().update(i, account));
    }
}

/// The charges of one account cost no more than all charges together.
pub proof fn lemma_total_bounds_account(accounts: Seq<AccountView>, i: int)
    requires
        0 <= i < accounts.len(),
    ensures
        total_cost(accounts[i].charges) <= ledger_total(accounts),
    decreases accounts.len(),
{
    if i < accounts.len() - 1 {
        lemma_total_bounds_account(accounts.drop_last(), i);
    }
}

/// The account at the position of `person` is the person's.
pub proof fn lemma_position_is_persons(accounts: Seq<AccountView>, person: Seq<char>)
    ensures
        0 <= position_of(accounts, person) <= accounts.len(),
        position_of(accounts, person) < accounts.len() ==> accounts[position_of(
            accounts,
            person,
        )].person == person,
    decreases accounts.len(),
{
    if accounts.len() > 0 && accounts[0].person != person {
        lemma_position_is_persons(accounts.drop_first(), person);
    }
}

/// A person without an account differs from the person of every account.
pub proof fn lemma_position_absent(accounts: Seq<AccountView>, person: Seq<char>, i: int)
    requires
        0 <= i < accounts.len(),
        position_of(accounts, person) >= accounts.len(),
    ensures
        accounts[i].person != person,
    decreases accounts.len(),
{
    if i > 0 {
        lemma_position_absent(accounts.drop_first(), person, i - 1);
    }
}

/// Adding a charge keeps a ledger consistent.
pub proof fn lemma_with_charge_wf(ledger: LedgerView, person: Seq<char>, charge: ChargeView)
    requires
        ledger.wf(),
    ensures
        ledger.with_charge(person, charge).wf(),
{
    let i = position_of(ledger.accounts, person);
    let after = ledger.with_charge(person, charge);
    lemma_position_is_persons(ledger.accounts, person);
    if ledger.has(person) {
        let account = AccountView { person, charges: ledger.accounts[i].charges.push(charge) };
        lemma_total_update(ledger.accounts, i, account);
        assert(account.charges.drop_last() =~= ledger.accounts[i].charges);
    } else {
        let account = AccountView { person, charges: seq![charge] };
        assert(after.accounts.drop_last() =~= ledger.accounts);
        assert(total_cost(account.charges.drop_last()) == 0);
        assert forall|a: int, b: int| 0 <= a < b < after.accounts.len() implies (
        #[trigger] after.accounts[a]).person != (#[trigger] after.accounts[b]).person by {
            if b == ledger.accounts.len() {
                lemma_position_absent(ledger.accounts, person, a);
            }
        }
    }
}

/// Adding charges keeps a ledger consistent and adds their costs to the
/// subtotal.
pub proof fn lemma_with_charges_wf(ledger: LedgerView, person: Seq<char>, charges: Seq<ChargeView>)
    requires
        ledger.wf(),
    ensures
        ledger.with_charges(person, charges).wf(),
        ledger.with_charges(person, charges).subtotal == ledger.subtotal + total_cost(charges),
    decreases charges.len(),
{
    if charges.len() > 0 {
        lemma_with_charges_wf(ledger, person, charges.drop_last());
        lemma_with_charge_wf(
            ledger.with_charges(person, charges.drop_last()),
            person,
            charges.last(),
        );
    }
}

/// Taking a person's last charge away keeps a ledger consistent.
pub proof fn lemma_without_last_wf(ledger: LedgerView, person: Seq<char>)
    requires
        ledger.wf(),
        ledger.charges_of(person).len() > 0,
    ensures
        ledger.without_last(person).wf(),
        ledger.charges_of(person).last().cost <= ledger.subtotal,
{
    let i = position_of(ledger.accounts, person);
    lemma_position_is_persons(ledger.accounts, person);
    let account = AccountView { person, charges: ledger.accounts[i].charges.drop_last() };
    lemma_total_update(ledger.accounts, i, account);
}

/// The subtotal stays the sum of the costs of all charges: whatever action
/// is applied for whatever person, a consistent ledger stays consistent.
pub proof fn lemma_apply_keeps_subtotal(ledger: LedgerView, action: ActionView, person: Seq<char>)
    requires
        ledger.wf(),
    ensures
        ledger_after(ledger, action, person).wf(),
        ledger_after(ledger, action, person).subtotal == ledger_total(
            ledger_after(ledger, action, person).accounts,
        ),
{
    match action {
        ActionView::AddCharge { charge } => {
            lemma_with_charge_wf(ledger, person, charge);
        },
        ActionView::DeleteLastCharge => {
            if ledger.charges_of(person).len() > 0 {
                lemma_without_last_wf(ledger, person);
            }
        },
        _ => {},
    }
}

/// One application: an action and the person it is applied for.
pub struct Application {
    pub action: ActionView,
    pub person: Seq<char>,
}

/// The ledger after the applications `steps`, one after the other.
pub open spec fn ledger_after_all(ledger: LedgerView, steps: Seq<Application>) -> LedgerView
    decreases steps.len(),
{
    if steps.len() == 0 {
        ledger
    } else {
        ledger_after(
            ledger_after_all(ledger, steps.drop_last()),
            steps.last().action,
            steps.last().person,
        )
    }
}

/// After any sequence of applications to a consistent ledger, the subtotal
/// is the sum of the costs of all charges of all persons.
pub proof fn lemma_subtotal_invariant(ledger: LedgerView, steps: Seq<Application>)
    requires
        ledger.wf(),
    ensures
        ledger_after_all(ledger, steps).wf(),
        ledger_after_all(ledger, steps).subtotal == ledger_total(
            ledger_after_all(ledger, steps).accounts,
        ),
    decreases steps.len(),
{
    if steps.len() > 0 {
        lemma_subtotal_invariant(ledger, steps.drop_last());
        lemma_apply_keeps_subtotal(
            ledger_after_all(ledger, steps.drop_last()),
            steps.last().action,
            steps.last().person,
        );
    }
}

/// A ledger: for each person the charges in the order they were added, and
/// the subtotal of all charges.
#[derive(Debug, PartialEq)]
pub struct Ledger {
    accounts: Vec<Account>,
    subtotal: u64,
}

impl View for Ledger {
    type V = LedgerView;

    closed spec fn view(&self) -> LedgerView {
        LedgerView { accounts: account_views(self.accounts@), subtotal: self.subtotal as nat }
    }
}

impl Ledger {
    /// Whether the ledger is consistent: see `LedgerView::wf`.
    pub open spec fn wf(&self) -> bool {
        self@.wf()
    }

    /// A ledger without accounts.
    pub fn new() -> (ledger: Ledger)
        ensures
            ledger.wf(),
            ledger@.accounts.len() == 0,
            ledger@.subtotal == 0,
    {
        Ledger { accounts: Vec::new(), subtotal: 0 }
    }

    /// The sum of the costs of all charges.
    pub fn subtotal(&self) -> (total: Amount)
        ensures
            total.micros == self@.subtotal,
    {
        Amount { micros: self.subtotal }
    }

    /// The accounts, in the order in which their persons first got a charge.
    pub fn accounts(&self) -> (accounts: &Vec<Account>)
        ensures
            account_views(accounts@) == self@.accounts,
    {
        &self.accounts
    }

    /// Whether a charge of the given cost can be added without the subtotal
    /// leaving the range of an amount.
    pub fn has_room_for(&self, cost: Amount) -> (r: bool)
        ensures
            r == (self@.subtotal + cost.micros <= u64::MAX),
    {
        cost.micros <= u64::MAX - self.subtotal
    }

    /// The position of the account of `person`.
    fn find(&self, person: &str) -> (i: usize)
        ensures
            i == position_of(self@.accounts, person@),
            i <= self.accounts.len(),
            i < self.accounts.len() ==> self.accounts[i as int].person@ == person@,
    {
        let mut i: usize = 0;
        while i < self.accounts.len()
            invariant
                i <= self.accounts.len(),
                forall|j: int| 0 <= j < i ==> (#[trigger] self@.accounts[j]).person != person@,
            decreases self.accounts.len() - i,
        {
            if same_text(self.accounts[i].person.as_str(), person) {
                proof {
                    lemma_position_found(self@.accounts, person@, i as int);
                }
                return i;
            }
            i += 1;
        }
        proof {
            lemma_position_found(self@.accounts, person@, i as int);
        }
        i
    }

    /// Adds `charge` at the end of the charges of `person`.
    pub fn add(&mut self, person: &str, charge: Charge)
        requires
            old(self).wf(),
            old(self)@.subtotal + charge.cost.micros <= u64::MAX,
        ensures
            final(self).wf(),
            final(self)@ == old(self)@.with_charge(person@, charge@),
    {
        let i = self.find(person);
        let ghost before = self@;
        let ghost added = charge@;
        let cost = charge.cost.micros;
        proof {
            lemma_with_charge_wf(before, person@, added);
        }
        if i < self.accounts.len() {
            self.accounts[i].charges.push(charge);
            self.subtotal = self.subtotal + cost;
            proof {
                let account = AccountView {
                    person: person@,
                    charges: before.accounts[i as int].charges.push(added),
                };
                assert(charge_views(self.accounts@[i as int].charges@) =~= account.charges);
                assert(self@.accounts =~= before.accounts.update(i as int, account));
            }
        } else {
            let mut charges: Vec<Charge> = Vec::new();
            charges.push(charge);
            self.accounts.push(Account { person: person.to_owned(), charges });
            self.subtotal = self.subtotal + cost;
            proof {
                let account = AccountView { person: person@, charges: seq![added] };
                assert(charge_views(charges@) =~= account.charges);
                assert(self@.accounts =~= before.accounts.push(account));
            }
        }
    }

    /// Removes the last charge of `person` and returns it; does nothing
    /// where the person has no charge.
    pub fn delete_last(&mut self, person: &str) -> (removed: Option<Charge>)
        requires
            old(self).wf(),
        ensures
            final(self).wf(),
            match removed {
                Some(charge) => {
                    &&& old(self)@.charges_of(person@).len() > 0
                    &&& charge@ == old(self)@.charges_of(person@).last()
                    &&& final(self)@ == old(self)@.without_last(person@)
                },
                None => {
                    &&& old(self)@.charges_of(person@).len() == 0
                    &&& final(self)@ == old(self)@
                },
            },
    {
        let i = self.find(person);
        let ghost before = self@;
        if i >= self.accounts.len() {
            return None;
        }
        match self.accounts[i].charges.pop() {
            Some(charge) => {
                proof {
                    let account = AccountView {
                        person: person@,
                        charges: before.accounts[i as int].charges.drop_last(),
                    };
                    assert(charge_views(self.accounts@[i as int].charges@) =~= account.charges);
                    assert(account_views(self.accounts@) =~= before.accounts.update(
                        i as int,
                        account,
                    ));
                    lemma_without_last_wf(before, person@);
                }
                self.subtotal = self.subtotal - charge.cost.micros;
                Some(charge)
            },
            None => {
                assert(account_views(self.accounts@) =~= before.accounts);
                None
            },
        }
    }

    /// The last charge of `person`, where there is one.
    pub fn last(&self, person: &str) -> (last: Option<&Charge>)
        ensures
            match last {
                Some(charge) => {
                    &&& self@.charges_of(person@).len() > 0
                    &&& charge@ == self@.charges_of(person@).last()
                },
                None => self@.charges_of(person@).len() == 0,
            },
    {
        let i = self.find(person);
        if i >= self.accounts.len() {
            return None;
        }
        let n = self.accounts[i].charges.len();
        if n == 0 {
            None
        } else {
            Some(&self.accounts[i].charges[n - 1])
        }
    }

    /// Whether `person` has an account.
    pub fn has(&self, person: &str) -> (r: bool)
        ensures
            r == self@.has(person@),
    {
        self.find(person) < self.accounts.len()
    }

    /// Applies `action` for `person`. The entry of a charge adds it to the
    /// person's charges and its cost to the subtotal; the deletion of the
    /// last charge takes it away again and its cost from the subtotal; no
    /// other action changes the ledger.
    pub fn apply(&mut self, action: InputAction, person: &str) -> (effect: Effect)
        requires
            old(self).wf(),
            action matches InputAction::AddCharge { charge } ==> old(self)@.subtotal
                + charge.cost.micros <= u64::MAX,
        ensures
            final(self).wf(),
            final(self)@ == ledger_after(old(self)@, action@, person@),
            effect@ == effect_of(old(self)@, action@, person@),
    {
        match action {
            InputAction::AddCharge { charge } => {
                self.add(person, charge);
                Effect::Added
            },
            InputAction::DeleteLastCharge => {
                match self.delete_last(person) {
                    Some(charge) => Effect::Removed(charge),
                    None => Effect::NoOp,
                }
            },
            InputAction::PrintLastCharge => {
                if !self.has(person) {
                    Effect::NoOp
                } else {
                    match self.last(person) {
                        Some(charge) => Effect::Shown(Some(charge.clone())),
                        None => Effect::Shown(None),
                    }
                }
            },
            InputAction::Done => Effect::NoOp,
            InputAction::AssignCharge { name: _, indices: _ } => Effect::Unsupported,
            InputAction::DeleteByIndex { indices: _ } => Effect::Unsupported,
        }
    }
}

} // verus!
