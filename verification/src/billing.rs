//! The apportionment of a bill: each person owes the own charges and, of the
//! fees that the bill adds to the subtotal, the part that the own charges
//! are of the subtotal.

use crate::amount::{amount_of, Amount};
use crate::charges::{charge_views, lemma_total_cost_prefix, total_cost, Charge, ChargeView};
use crate::ledger::{
    account_views, ledger_total, lemma_total_bounds_account, Account, AccountView, Ledger,
    LedgerView,
};
use crate::text::{label_of, label_text, split_words, texts, words_of};
use vstd::prelude::*;

verus! {

/// Why a bill's total is not accepted.
#[derive(Debug, PartialEq, Eq, Clone, Copy, Structural)]
pub enum BillTotalError {
    /// The input is not one decimal numeral.
    Unreadable,
    /// The total is below the subtotal.
    BelowSubtotal,
}

/// Why a bill cannot be apportioned.
#[derive(Debug, PartialEq, Eq, Clone, Copy, Structural)]
pub enum ApportionError {
    /// The bill's total is below the subtotal.
    BelowSubtotal,
    /// The ledger has accounts, but its subtotal is zero: no account is any
    /// part of it.
    ZeroSubtotal,
}

/// The exact quotient of two whole numbers.
#[derive(Debug, PartialEq, Eq, Clone, Copy, Structural)]
pub struct Fraction {
    pub numerator: u128,
    pub denominator: u64,
}

/// What a fraction holds.
pub struct FractionView {
    pub numerator: nat,
    pub denominator: nat,
}

impl View for Fraction {
    type V = FractionView;

    open spec fn view(&self) -> FractionView {
        FractionView { numerator: self.numerator as nat, denominator: self.denominator as nat }
    }
}

/// One charge as a breakdown shows it: the label of its name, which is the
/// name in title case, and its cost.
#[derive(Debug, PartialEq)]
pub struct ReportLine {
    pub label: String,
    pub cost: Amount,
}

/// What a report line holds, the cost in millionths.
pub struct ReportLineView {
    pub label: Seq<char>,
    pub cost: nat,
}

impl View for ReportLine {
    type V = ReportLineView;

    open spec fn view(&self) -> ReportLineView {
        ReportLineView { label: self.label@, cost: self.cost.micros as nat }
    }
}

/// What one person owes. The three quotients have the subtotal as their
/// denominator; `share` is a plain ratio, and the other two are amounts in
/// millionths.
#[derive(Debug, PartialEq)]
pub struct Statement {
    pub person: String,
    /// The person's charges, oldest first.
    pub lines: Vec<ReportLine>,
    /// The sum of the person's charges.
    pub total_charges: Amount,
    /// The part that the person's charges are of the subtotal.
    pub share: Fraction,
    /// Whether that part is less than the whole.
    pub share_is_partial: bool,
    /// The person's part of the fees.
    pub fees_owed: Fraction,
    /// The person's charges and part of the fees together.
    pub total_owed: Fraction,
}

/// What a statement holds, the amounts in millionths.
pub struct StatementView {
    pub person: Seq<char>,
    pub lines: Seq<ReportLineView>,
    pub total_charges: nat,
    pub share: FractionView,
    pub share_is_partial: bool,
    pub fees_owed: FractionView,
    pub total_owed: FractionView,
}

/// The views of a sequence of report lines.
pub open spec fn line_views(lines: Seq<ReportLine>) -> Seq<ReportLineView> {
    Seq::new(lines.len(), |i: int| lines[i]@)
}

impl View for Statement {
    type V = StatementView;

    open spec fn view(&self) -> StatementView {
        StatementView {
            person: self.person@,
            lines: line_views(self.lines@),
            total_charges: self.total_charges.micros as nat,
            share: self.share@,
            share_is_partial: self.share_is_partial,
            fees_owed: self.fees_owed@,
            total_owed: self.total_owed@,
        }
    }
}

/// The views of a sequence of statements.
pub open spec fn statement_views(statements: Seq<Statement>) -> Seq<StatementView> {
    Seq::new(statements.len(), |i: int| statements[i]@)
}

/// The total that `input` gives for a bill with the given subtotal: `input`
/// holds one word, the word is a decimal numeral, and its amount is not
/// below the subtotal.
pub open spec fn bill_total_of(input: Seq<char>, subtotal: nat) -> Result<Amount, BillTotalError> {
    let words = words_of(input);
    if words.len() == 1 && amount_of(words[0]) is Some {
        if amount_of(words[0])->0.micros >= subtotal {
            Ok(amount_of(words[0])->0)
        } else {
            Err(BillTotalError::BelowSubtotal)
        }
    } else {
        Err(BillTotalError::Unreadable)
    }
}

/// The lines of a breakdown for `charges`.
pub open spec fn lines_of(charges: Seq<ChargeView>) -> Seq<ReportLineView> {
    Seq::new(
        charges.len(),
        |i: int| ReportLineView { label: label_text(charges[i].name), cost: charges[i].cost },
    )
}

/// What the person of `account` owes of a bill of `bill_total` over a
/// subtotal of `subtotal`, both in millionths.
pub open spec fn statement_of(
    account: AccountView,
    subtotal: nat,
    bill_total: nat,
) -> StatementView {
    let sum = total_cost(account.charges);
    let fees = (bill_total - subtotal) as nat;
    StatementView {
        person: account.person,
        lines: lines_of(account.charges),
        total_charges: sum,
        share: FractionView { numerator: sum, denominator: subtotal },
        share_is_partial: sum < subtotal,
        fees_owed: FractionView { numerator: sum * fees, denominator: subtotal },
        total_owed: FractionView { numerator: sum * subtotal + sum * fees, denominator: subtotal },
    }
}

/// The statements of all accounts, in the order of the accounts.
pub open spec fn statements_of(accounts: Seq<AccountView>, subtotal: nat, bill_total: nat) -> Seq<
    StatementView,
> {
    Seq::new(accounts.len(), |i: int| statement_of(accounts[i], subtotal, bill_total))
}

/// The breakdown of a bill of `bill_total` millionths over `ledger`.
pub open spec fn breakdown_of(ledger: LedgerView, bill_total: nat) -> Result<
    Seq<StatementView>,
    ApportionError,
> {
    if bill_total < ledger.subtotal {
        Err(ApportionError::BelowSubtotal)
    } else if ledger.accounts.len() > 0 && ledger.subtotal == 0 {
        Err(ApportionError::ZeroSubtotal)
    } else {
        Ok(statements_of(ledger.accounts, ledger.subtotal, bill_total))
    }
}

/// The sum of the numerators of what the statements owe in total.
pub open spec fn owed_sum(statements: Seq<StatementView>) -> nat
    decreases statements.len(),
{
    if statements.len() == 0 {
        0
    } else {
        owed_sum(statements.drop_last()) + statements.last().total_owed.numerator
    }
}

/// The numerators of what the accounts owe add up to the bill's total times
/// the sum of all charges.
pub proof fn lemma_owed_sum(accounts: Seq<AccountView>, subtotal: nat, bill_total: nat)
    requires
        subtotal <= bill_total,
    ensures
        owed_sum(statements_of(accounts, subtotal, bill_total)) == ledger_total(accounts)
            * bill_total,
    decreases accounts.len(),
{
    let shares = statements_of(accounts, subtotal, bill_total);
    if accounts.len() > 0 {
        let before = accounts.drop_last();
        lemma_owed_sum(before, subtotal, bill_total);
        assert(shares.drop_last() =~= statements_of(before, subtotal, bill_total));
        let sum = total_cost(accounts.last().charges);
        let fees = (bill_total - subtotal) as nat;
        assert(sum * subtotal + sum * fees == sum * bill_total) by (nonlinear_arith)
            requires
                fees == bill_total - subtotal,
        ;
        assert((ledger_total(before) + sum) * bill_total == ledger_total(before) * bill_total + sum
            * bill_total) by (nonlinear_arith);
    } else {
        assert(0 * bill_total == 0);
    }
}

/// Apportionment conserves the bill: for a consistent ledger with a
/// subtotal above zero and a total that is not below it, the breakdown
/// exists, every quotient of it has the subtotal as its denominator, and the
/// numerators of what the persons owe add up to the total times the
/// subtotal. So what the persons owe adds up to the bill's total, exactly.
pub proof fn lemma_apportionment_conserves(ledger: LedgerView, bill_total: nat)
    requires
        ledger.wf(),
        0 < ledger.subtotal <= bill_total,
    ensures
        breakdown_of(ledger, bill_total) is Ok,
        forall|i: int|
            0 <= i < breakdown_of(ledger, bill_total)->Ok_0.len() ==> (
            #[trigger] breakdown_of(ledger, bill_total)->Ok_0[i]).total_owed.denominator
                == ledger.subtotal,
        owed_sum(breakdown_of(ledger, bill_total)->Ok_0) == bill_total * ledger.subtotal,
{
    lemma_owed_sum(ledger.accounts, ledger.subtotal, bill_total);
}

/// Reads the total of a bill from `input` and holds it against the
/// subtotal.
pub fn read_bill_total(input: &str, subtotal: Amount) -> (r: Result<Amount, BillTotalError>)
    ensures
        r == bill_total_of(input@, subtotal.micros as nat),
{
    let words = split_words(input);
    if words.len() != 1 {
        return Err(BillTotalError::Unreadable);
    }
    match Amount::parse(words[0].as_str()) {
        Some(total) => {
            if total.micros >= subtotal.micros {
                Ok(total)
            } else {
                Err(BillTotalError::BelowSubtotal)
            }
        },
        None => Err(BillTotalError::Unreadable),
    }
}

/// What the person of `account` owes.
fn account_statement(account: &Account, subtotal: u64, bill_total: u64) -> (statement: Statement)
    requires
        total_cost(account@.charges) <= subtotal <= bill_total,
    ensures
        statement@ == statement_of(account@, subtotal as nat, bill_total as nat),
{
    let ghost charges = account@.charges;
    let mut lines: Vec<ReportLine> = Vec::new();
    let mut sum: u64 = 0;
    let mut i: usize = 0;
    while i < account.charges.len()
        invariant
            i <= account.charges.len(),
            charges == account@.charges,
            total_cost(charges) <= subtotal,
            sum == total_cost(charges.take(i as int)),
            lines.len() == i,
            forall|j: int| 0 <= j < i ==> (#[trigger] lines[j])@ == lines_of(charges)[j],
        decreases account.charges.len() - i,
    {
        let charge = &account.charges[i];
        proof {
            assert(charges.take(i + 1).drop_last() =~= charges.take(i as int));
            lemma_total_cost_prefix(charges, i + 1);
        }
        sum = sum + charge.cost.micros;
        lines.push(ReportLine { label: label_of(charge.name.as_str()), cost: charge.cost });
        i += 1;
    }
    assert(charges.take(i as int) =~= charges);
    assert(line_views(lines@) =~= lines_of(charges));
    let fees: u64 = bill_total - subtotal;
    proof {
        assert(sum * fees <= 0xffff_ffff_ffff_ffff * 0xffff_ffff_ffff_ffff) by (nonlinear_arith)
            requires
                sum <= 0xffff_ffff_ffff_ffff,
                fees <= 0xffff_ffff_ffff_ffff,
        ;
        assert(sum * subtotal + sum * fees == sum * bill_total) by (nonlinear_arith)
            requires
                fees == bill_total - subtotal,
        ;
        assert(sum * bill_total <= 0xffff_ffff_ffff_ffff * 0xffff_ffff_ffff_ffff)
            by (nonlinear_arith)
            requires
                sum <= 0xffff_ffff_ffff_ffff,
                bill_total <= 0xffff_ffff_ffff_ffff,
        ;
        assert(sum * subtotal <= sum * bill_total) by (nonlinear_arith)
            requires
                subtotal <= bill_total,
        ;
    }
    let sum_wide: u128 = sum as u128;
    let fees_numerator: u128 = sum_wide * (fees as u128);
    let owed_numerator: u128 = sum_wide * (subtotal as u128) + fees_numerator;
    Statement {
        person: account.person.clone(),
        lines,
        total_charges: Amount { micros: sum },
        share: Fraction { numerator: sum_wide, denominator: subtotal },
        share_is_partial: sum < subtotal,
        fees_owed: Fraction { numerator: fees_numerator, denominator: subtotal },
        total_owed: Fraction { numerator: owed_numerator, denominator: subtotal },
    }
}

/// Apportions a bill of `bill_total` over the ledger: one statement for each
/// account, in the order of the accounts. A total below the subtotal is
/// refused, and so is a ledger that has accounts but a subtotal of zero.
pub fn apportion(ledger: &Ledger, bill_total: Amount) -> (r: Result<
    Vec<Statement>,
    ApportionError,
>)
    requires
        ledger.wf(),
    ensures
        match r {
            Ok(statements) => breakdown_of(ledger@, bill_total.micros as nat) == Ok::<
                Seq<StatementView>,
                ApportionError,
            >(statement_views(statements@)),
            Err(e) => breakdown_of(ledger@, bill_total.micros as nat) == Err::<
                Seq<StatementView>,
                ApportionError,
            >(e),
        },
{
    let subtotal = ledger.subtotal().micros;
    let accounts = ledger.accounts();
    if bill_total.micros < subtotal {
        return Err(ApportionError::BelowSubtotal);
    }
    if accounts.len() > 0 && subtotal == 0 {
        return Err(ApportionError::ZeroSubtotal);
    }
    let ghost all = ledger@.accounts;
    let mut shares: Vec<Statement> = Vec::new();
    let mut i: usize = 0;
    while i < accounts.len()
        invariant
            i <= accounts.len(),
            all == account_views(accounts@),
            subtotal == ledger_total(all),
            subtotal <= bill_total.micros,
            shares.len() == i,
            forall|j: int|
                0 <= j < i ==> (#[trigger] shares[j])@ == statement_of(
                    all[j],
                    subtotal as nat,
                    bill_total.micros as nat,
                ),
        decreases accounts.len() - i,
    {
        proof {
            lemma_total_bounds_account(all, i as int);
        }
        shares.push(account_statement(&accounts[i], subtotal, bill_total.micros));
        i += 1;
    }
    assert(statement_views(shares@) =~= statements_of(
        all,
        subtotal as nat,
        bill_total.micros as nat,
    ));
    Ok(shares)
}

} // verus!
