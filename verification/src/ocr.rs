//! Charges imported from a receipt, and their reconciliation: candidates are
//! added, deleted by index and assigned to persons until all are assigned.

use crate::actions::{parse, parse_line, ActionView, InputAction, ParseError};
use crate::charges::{
    all_assigned, charge_of_line, charge_views, lemma_total_cost_prefix, total_cost, Charge,
    ChargeView,
};
use crate::indices::{
    assign_error, delete_by_index, delete_error, first_unreadable, indices_of,
    lemma_first_out_of_range, nats, read_indices, remove_each, removed_by, sort_desc,
    IndexErrorView, IndexResolutionError,
};
use crate::ledger::{lemma_with_charges_wf, Ledger, LedgerView};
use crate::text::{same_text, texts};
use crate::utils::{get_values_by_delim, pieces_of};
use vstd::prelude::*;

verus! {

/// `charge`, assigned.
pub open spec fn marked(charge: ChargeView) -> ChargeView {
    ChargeView { is_assigned: true, ..charge }
}

/// `list` with the charges assigned whose position, counted from 1, is
/// among `idx`.
pub open spec fn with_assigned(list: Seq<ChargeView>, idx: Seq<nat>) -> Seq<ChargeView> {
    Seq::new(
        list.len(),
        |i: int|
            if idx.contains((i + 1) as nat) {
                marked(list[i])
            } else {
                list[i]
            },
    )
}

/// The charges of `list` at the positions `idx`, counted from 1, in the
/// order of `idx`, each assigned.
pub open spec fn picked(list: Seq<ChargeView>, idx: Seq<nat>) -> Seq<ChargeView> {
    Seq::new(idx.len(), |k: int| marked(list[idx[k] - 1]))
}

/// One field of an expense document: what kind of field it is, and the
/// text found in it.
#[derive(Debug, PartialEq)]
pub struct ExpenseField {
    pub kind: String,
    pub text: String,
}

/// What an expense field holds.
pub struct ExpenseFieldView {
    pub kind: Seq<char>,
    pub text: Seq<char>,
}

impl View for ExpenseField {
    type V = ExpenseFieldView;

    open spec fn view(&self) -> ExpenseFieldView {
        ExpenseFieldView { kind: self.kind@, text: self.text@ }
    }
}

/// The views of a sequence of expense fields.
pub open spec fn field_views(fields: Seq<ExpenseField>) -> Seq<ExpenseFieldView> {
    Seq::new(fields.len(), |i: int| fields[i]@)
}

/// The charges that the lines enter, in order; a line that enters none is
/// passed over.
pub open spec fn charges_of_lines(lines: Seq<Seq<char>>) -> Seq<ChargeView>
    decreases lines.len(),
{
    if lines.len() == 0 {
        Seq::empty()
    } else {
        let before = charges_of_lines(lines.drop_last());
        match charge_of_line(lines.last()) {
            Some(charge) => before.push(charge),
            None => before,
        }
    }
}

/// The texts of the fields that are expense rows, in order.
pub open spec fn expense_rows(fields: Seq<ExpenseFieldView>) -> Seq<Seq<char>>
    decreases fields.len(),
{
    if fields.len() == 0 {
        Seq::empty()
    } else {
        let before = expense_rows(fields.drop_last());
        if fields.last().kind == "EXPENSE_ROW"@ {
            before.push(fields.last().text)
        } else {
            before
        }
    }
}

/// Whether a field of the kind `kind` is an expense row.
pub fn is_expense_row(kind: &str) -> (r: bool)
    ensures
        r == (kind@ == "EXPENSE_ROW"@),
{
    same_text(kind, "EXPENSE_ROW")
}

/// The charges that the lines enter, in order.
pub(crate) fn charges_from_lines(lines: &Vec<String>) -> (charges: Vec<Charge>)
    ensures
        charge_views(charges@) == charges_of_lines(texts(lines@)),
{
    let mut charges: Vec<Charge> = Vec::new();
    let mut i: usize = 0;
    while i < lines.len()
        invariant
            i <= lines.len(),
            charge_views(charges@) == charges_of_lines(texts(lines@).take(i as int)),
        decreases lines.len() - i,
    {
        let ghost now = texts(lines@).take(i + 1);
        assert(now.drop_last() =~= texts(lines@).take(i as int));
        match Charge::from_line(lines[i].as_str()) {
            Some(charge) => {
                charges.push(charge);
            },
            None => {},
        }
        i += 1;
    }
    assert(texts(lines@).take(i as int) =~= texts(lines@));
    charges
}

/// The charges that a receipt's text holds: each line that enters a charge
/// gives one, and every other line is passed over.
pub fn get_charges_from_text(data: String) -> (charges: Vec<Charge>)
    ensures
        charge_views(charges@) == charges_of_lines(pieces_of(data@, "\n"@)),
{
    let lines = get_values_by_delim(data, "\n");
    charges_from_lines(&lines)
}

/// The charges that an expense document holds: each field that is an
/// expense row and whose text enters a charge gives one, and every other
/// field is passed over.
pub fn get_charges_from_fields(fields: &Vec<ExpenseField>) -> (charges: Vec<Charge>)
    ensures
        charge_views(charges@) == charges_of_lines(expense_rows(field_views(fields@))),
{
    let mut rows: Vec<String> = Vec::new();
    let mut i: usize = 0;
    while i < fields.len()
        invariant
            i <= fields.len(),
            texts(rows@) == expense_rows(field_views(fields@).take(i as int)),
        decreases fields.len() - i,
    {
        let ghost now = field_views(fields@).take(i + 1);
        assert(now.drop_last() =~= field_views(fields@).take(i as int));
        if is_expense_row(fields[i].kind.as_str()) {
            rows.push(fields[i].text.clone());
        }
        i += 1;
    }
    assert(field_views(fields@).take(i as int) =~= field_views(fields@));
    charges_from_lines(&rows)
}

/// The reconciliation of imported charges: the candidates, the ledger that
/// assignments fill, and whether the session is closed.
#[derive(Debug, PartialEq)]
pub struct ReconciliationSession {
    candidates: Vec<Charge>,
    ledger: Ledger,
    closed: bool,
}

/// What a reconciliation session holds.
pub struct ReconciliationView {
    pub candidates: Seq<ChargeView>,
    pub ledger: LedgerView,
    pub closed: bool,
}

impl ReconciliationView {
    /// The ledger is consistent.
    pub open spec fn wf(self) -> bool {
        self.ledger.wf()
    }

    /// Whether an assignment by `tokens` is accepted: the indices can be
    /// used, and the ledger has room for the charges they point at.
    pub open spec fn can_assign(self, tokens: Seq<Seq<char>>) -> bool {
        &&& assign_error(self.candidates.len(), tokens) is None
        &&& self.ledger.subtotal + total_cost(picked(self.candidates, indices_of(tokens)))
            <= u64::MAX
    }
}

/// What an action did to a reconciliation session.
#[derive(Debug, PartialEq)]
pub enum ReconcileOutcome {
    /// The charge was added to the candidates.
    Added,
    /// These candidates were deleted, in this order.
    Removed(Vec<Charge>),
    /// These charges were added to the charges of `person`, in this order.
    Assigned { person: String, charges: Vec<Charge> },
    /// Every candidate is assigned: the session is closed.
    Closed,
    /// Candidates that are not assigned remain: the session stays open.
    UnassignedRemain,
    /// The action has no meaning for a list of candidates.
    Unsupported,
    /// The line is no action.
    Rejected(ParseError),
    /// The indices could not be used; nothing changed.
    BadIndex(IndexResolutionError),
    /// The assignment would take the subtotal out of the range of an
    /// amount; nothing changed.
    TooLarge,
}

/// What an outcome holds.
pub enum ReconcileOutcomeView {
    Added,
    Removed(Seq<ChargeView>),
    Assigned { person: Seq<char>, charges: Seq<ChargeView> },
    Closed,
    UnassignedRemain,
    Unsupported,
    Rejected(ParseError),
    BadIndex(IndexErrorView),
    TooLarge,
}

impl View for ReconcileOutcome {
    type V = ReconcileOutcomeView;

    open spec fn view(&self) -> ReconcileOutcomeView {
        match self {
            ReconcileOutcome::Added => ReconcileOutcomeView::Added,
            ReconcileOutcome::Removed(charges) => ReconcileOutcomeView::Removed(
                charge_views(charges@),
            ),
            ReconcileOutcome::Assigned { person, charges } => ReconcileOutcomeView::Assigned {
                person: person@,
                charges: charge_views(charges@),
            },
            ReconcileOutcome::Closed => ReconcileOutcomeView::Closed,
            ReconcileOutcome::UnassignedRemain => ReconcileOutcomeView::UnassignedRemain,
            ReconcileOutcome::Unsupported => ReconcileOutcomeView::Unsupported,
            ReconcileOutcome::Rejected(e) => ReconcileOutcomeView::Rejected(*e),
            ReconcileOutcome::BadIndex(e) => ReconcileOutcomeView::BadIndex(e@),
            ReconcileOutcome::TooLarge => ReconcileOutcomeView::TooLarge,
        }
    }
}

/// The session after `action` was applied. A closed session stays as it is.
/// An entry adds a candidate; a deletion by index that is accepted takes
/// candidates out, highest index first; an assignment that is accepted marks
/// the candidates assigned and adds a copy of each to the person's charges;
/// "done" closes the session where every candidate is assigned. Nothing else
/// changes the session.
pub open spec fn session_after(
    session: ReconciliationView,
    action: ActionView,
) -> ReconciliationView {
    if session.closed {
        session
    } else {
        match action {
            ActionView::AddCharge { charge } => ReconciliationView {
                candidates: session.candidates.push(charge),
                ..session
            },
            ActionView::DeleteByIndex { indices } => if delete_error(
                session.candidates.len(),
                indices,
            ) is None {
                ReconciliationView {
                    candidates: remove_each(session.candidates, sort_desc(indices_of(indices))),
                    ..session
                }
            } else {
                session
            },
            ActionView::AssignCharge { name, indices } => if session.can_assign(indices) {
                ReconciliationView {
                    candidates: with_assigned(session.candidates, indices_of(indices)),
                    ledger: session.ledger.with_charges(
                        name,
                        picked(session.candidates, indices_of(indices)),
                    ),
                    ..session
                }
            } else {
                session
            },
            ActionView::Done => ReconciliationView {
                closed: all_assigned(session.candidates),
                ..session
            },
            ActionView::PrintLastCharge => session,
            ActionView::DeleteLastCharge => session,
        }
    }
}

/// What applying `action` reports.
pub open spec fn session_outcome(
    session: ReconciliationView,
    action: ActionView,
) -> ReconcileOutcomeView {
    if session.closed {
        ReconcileOutcomeView::Closed
    } else {
        match action {
            ActionView::AddCharge { charge } => ReconcileOutcomeView::Added,
            ActionView::DeleteByIndex { indices } => match delete_error(
                session.candidates.len(),
                indices,
            ) {
                Some(e) => ReconcileOutcomeView::BadIndex(e),
                None => ReconcileOutcomeView::Removed(
                    removed_by(session.candidates, sort_desc(indices_of(indices))),
                ),
            },
            ActionView::AssignCharge { name, indices } => match assign_error(
                session.candidates.len(),
                indices,
            ) {
                Some(e) => ReconcileOutcomeView::BadIndex(e),
                None => if session.can_assign(indices) {
                    ReconcileOutcomeView::Assigned {
                        person: name,
                        charges: picked(session.candidates, indices_of(indices)),
                    }
                } else {
                    ReconcileOutcomeView::TooLarge
                },
            },
            ActionView::Done => if all_assigned(session.candidates) {
                ReconcileOutcomeView::Closed
            } else {
                ReconcileOutcomeView::UnassignedRemain
            },
            ActionView::PrintLastCharge => ReconcileOutcomeView::Unsupported,
            ActionView::DeleteLastCharge => ReconcileOutcomeView::Unsupported,
        }
    }
}

/// The session after `line` was entered: a line that is no action changes
/// nothing.
pub open spec fn reconcile_after(
    session: ReconciliationView,
    line: Seq<char>,
) -> ReconciliationView {
    match parse_line(line) {
        Ok(action) => session_after(session, action),
        Err(_) => session,
    }
}

/// What entering `line` reports.
pub open spec fn reconcile_outcome(
    session: ReconciliationView,
    line: Seq<char>,
) -> ReconcileOutcomeView {
    match parse_line(line) {
        Ok(action) => session_outcome(session, action),
        Err(e) => if session.closed {
            ReconcileOutcomeView::Closed
        } else {
            ReconcileOutcomeView::Rejected(e)
        },
    }
}

/// A session is closed by "done" alone, and only where every candidate is
/// assigned: while a candidate is not assigned, "done" is refused and the
/// session stays open, and no other action closes an open session.
pub proof fn lemma_done_guard(session: ReconciliationView, action: ActionView)
    requires
        !session.closed,
    ensures
        action is Done && !all_assigned(session.candidates) ==> {
            &&& !session_after(session, action).closed
            &&& session_after(session, action) == session
            &&& session_outcome(session, action) == ReconcileOutcomeView::UnassignedRemain
        },
        session_after(session, action).closed ==> action is Done && all_assigned(
            session.candidates,
        ),
{
}

impl View for ReconciliationSession {
    type V = ReconciliationView;

    closed spec fn view(&self) -> ReconciliationView {
        ReconciliationView {
            candidates: charge_views(self.candidates@),
            ledger: self.ledger@,
            closed: self.closed,
        }
    }
}

impl ReconciliationSession {
    /// Whether the session is consistent: its ledger is.
    pub open spec fn wf(&self) -> bool {
        self@.wf()
    }

    /// An open session over the given candidates, with an empty ledger.
    pub fn new(candidates: Vec<Charge>) -> (session: ReconciliationSession)
        ensures
            session.wf(),
            session@.candidates == charge_views(candidates@),
            session@.ledger.accounts.len() == 0,
            session@.ledger.subtotal == 0,
            !session@.closed,
    {
        ReconciliationSession { candidates, ledger: Ledger::new(), closed: false }
    }

    /// The candidates, in the order in which they are shown.
    pub fn candidates(&self) -> (candidates: &Vec<Charge>)
        ensures
            charge_views(candidates@) == self@.candidates,
    {
        &self.candidates
    }

    /// The ledger that the assignments have filled so far.
    pub fn ledger(&self) -> (ledger: &Ledger)
        ensures
            ledger@ == self@.ledger,
    {
        &self.ledger
    }

    /// Whether the session is closed.
    pub fn is_closed(&self) -> (r: bool)
        ensures
            r == self@.closed,
    {
        self.closed
    }

    /// Ends the session and hands out its ledger.
    pub fn into_ledger(self) -> (ledger: Ledger)
        ensures
            ledger@ == self@.ledger,
    {
        self.ledger
    }

    /// Whether every candidate is assigned.
    pub fn all_assigned(&self) -> (r: bool)
        ensures
            r == all_assigned(self@.candidates),
    {
        let mut i: usize = 0;
        while i < self.candidates.len()
            invariant
                i <= self.candidates.len(),
                forall|j: int| 0 <= j < i ==> (#[trigger] self@.candidates[j]).is_assigned,
            decreases self.candidates.len() - i,
        {
            if !self.candidates[i].is_assigned {
                assert(!self@.candidates[i as int].is_assigned);
                return false;
            }
            i += 1;
        }
        true
    }

    /// Assigns the candidates at the indices that `indices` denote to
    /// `person`: each is marked assigned, and a copy of it is added to the
    /// person's charges, in the order of the indices. Nothing changes
    /// unless every index can be used and the ledger has room.
    fn assign(&mut self, person: &str, indices: &Vec<String>) -> (outcome: ReconcileOutcome)
        requires
            old(self).wf(),
            !old(self)@.closed,
        ensures
            final(self).wf(),
            final(self)@ == session_after(
                old(self)@,
                ActionView::AssignCharge { name: person@, indices: texts(indices@) },
            ),
            outcome@ == session_outcome(
                old(self)@,
                ActionView::AssignCharge { name: person@, indices: texts(indices@) },
            ),
    {
        let read = match read_indices(indices) {
            Ok(read) => read,
            Err(e) => { return ReconcileOutcome::BadIndex(e); },
        };
        let ghost idx = indices_of(texts(indices@));
        let ghost before = self@;
        let ghost chosen = picked(before.candidates, idx);
        let n = self.candidates.len();
        let room: u64 = u64::MAX - self.ledger.subtotal().micros;
        let mut sum: u64 = 0;
        let mut fits = true;
        let mut k: usize = 0;
        while k < read.len()
            invariant
                k <= read.len(),
                n == self.candidates.len(),
                *self == *old(self),
                before == self@,
                before.wf(),
                !before.closed,
                nats(read@) == idx,
                idx == indices_of(texts(indices@)),
                chosen == picked(before.candidates, idx),
                first_unreadable(texts(indices@)) == indices.len(),
                forall|j: int| 0 <= j < k ==> 1 <= #[trigger] idx[j] <= n,
                room == u64::MAX - before.ledger.subtotal,
                fits ==> sum == total_cost(chosen.take(k as int)) && sum <= room,
                !fits ==> exists|m: int| 0 <= m <= k && total_cost(chosen.take(m)) > room,
            decreases read.len() - k,
        {
            if read[k] < 1 || read[k] > n {
                proof {
                    lemma_first_out_of_range(n as nat, idx, k as int);
                }
                return ReconcileOutcome::BadIndex(
                    IndexResolutionError::OutOfRange { index: read[k] },
                );
            }
            let cost = self.candidates[read[k] - 1].cost.micros;
            proof {
                assert(chosen.take(k + 1).drop_last() =~= chosen.take(k as int));
            }
            if fits {
                if cost > room - sum {
                    fits = false;
                } else {
                    sum = sum + cost;
                }
            }
            k += 1;
        }
        proof {
            lemma_first_out_of_range(n as nat, idx, k as int);
            assert(chosen.take(k as int) =~= chosen);
            if !fits {
                let m = choose|m: int| 0 <= m <= k && total_cost(chosen.take(m)) > room;
                lemma_total_cost_prefix(chosen, m);
            }
        }
        if !fits {
            return ReconcileOutcome::TooLarge;
        }
        let mut assigned: Vec<Charge> = Vec::new();
        let mut j: usize = 0;
        while j < read.len()
            invariant
                j <= read.len(),
                n == self.candidates.len(),
                n == before.candidates.len(),
                nats(read@) == idx,
                chosen == picked(before.candidates, idx),
                forall|i: int| 0 <= i < idx.len() ==> 1 <= #[trigger] idx[i] <= n,
                before.ledger.wf(),
                before.ledger.subtotal + total_cost(chosen) <= u64::MAX,
                self.closed == before.closed,
                !before.closed,
                charge_views(self.candidates@) == with_assigned(
                    before.candidates,
                    idx.take(j as int),
                ),
                self.ledger@ == before.ledger.with_charges(person@, chosen.take(j as int)),
                charge_views(assigned@) == chosen.take(j as int),
            decreases read.len() - j,
        {
            assert(idx[j as int] == read[j as int]);
            let at = read[j] - 1;
            let ghost shown = charge_views(self.candidates@);
            assert(shown[at as int] == self.candidates[at as int]@);
            proof {
                lemma_with_charges_wf(before.ledger, person@, chosen.take(j as int));
                lemma_total_cost_prefix(chosen, j + 1);
                assert(chosen.take(j + 1).drop_last() =~= chosen.take(j as int));
            }
            self.candidates[at].is_assigned = true;
            let copy = self.candidates[at].clone();
            self.ledger.add(person, copy.clone());
            assigned.push(copy);
            proof {
                let more = idx.take(j + 1);
                let next = with_assigned(before.candidates, more);
                assert forall|i: int| 0 <= i < n implies charge_views(self.candidates@)[i]
                    == next[i] by {
                    let p = (i + 1) as nat;
                    if i == at {
                        assert(more[j as int] == p);
                    }
                    assert(self.candidates@[i]@ == if i == at {
                        marked(shown[i])
                    } else {
                        shown[i]
                    });
                }
            }
            j += 1;
        }
        proof {
            assert(idx.take(j as int) =~= idx);
            lemma_with_charges_wf(before.ledger, person@, chosen);
        }
        ReconcileOutcome::Assigned { person: person.to_owned(), charges: assigned }
    }

    /// Applies `action` to the session.
    pub fn apply(&mut self, action: InputAction) -> (outcome: ReconcileOutcome)
        requires
            old(self).wf(),
        ensures
            final(self).wf(),
            final(self)@ == session_after(old(self)@, action@),
            outcome@ == session_outcome(old(self)@, action@),
    {
        if self.closed {
            return ReconcileOutcome::Closed;
        }
        match action {
            InputAction::AddCharge { charge } => {
                let ghost before = charge_views(self.candidates@);
                self.candidates.push(charge);
                assert(charge_views(self.candidates@) =~= before.push(charge@));
                ReconcileOutcome::Added
            },
            InputAction::DeleteByIndex { indices } => {
                match delete_by_index(&mut self.candidates, &indices) {
                    Ok(removed) => ReconcileOutcome::Removed(removed),
                    Err(e) => ReconcileOutcome::BadIndex(e),
                }
            },
            InputAction::AssignCharge { name, indices } => self.assign(name.as_str(), &indices),
            InputAction::Done => {
                if self.all_assigned() {
                    self.closed = true;
                    ReconcileOutcome::Closed
                } else {
                    ReconcileOutcome::UnassignedRemain
                }
            },
            InputAction::PrintLastCharge => ReconcileOutcome::Unsupported,
            InputAction::DeleteLastCharge => ReconcileOutcome::Unsupported,
        }
    }

    /// Enters one line: reads it as an action and applies the action.
    pub fn step(&mut self, line: &str) -> (outcome: ReconcileOutcome)
        requires
            old(self).wf(),
        ensures
            final(self).wf(),
            final(self)@ == reconcile_after(old(self)@, line@),
            outcome@ == reconcile_outcome(old(self)@, line@),
    {
        match parse(line) {
            Ok(action) => self.apply(action),
            Err(e) => if self.closed {
                ReconcileOutcome::Closed
            } else {
                ReconcileOutcome::Rejected(e)
            },
        }
    }
}

} // verus!
