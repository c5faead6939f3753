//! The line grammar: how a line of text becomes an action.

use crate::amount::{
    amount_of, amount_text, is_digit, lemma_amount_text_round_trip, Amount,
};
use crate::charges::{Charge, ChargeView};
use crate::text::{
    all_spaces, are_words, copy_texts, is_keyword, is_space, join_first, join_words,
    lemma_words_append_spaces, lemma_words_append_word, lemma_words_are_words,
    lemma_words_of_joined, lower, lower_char, space_free, split_words, texts, words_of,
};
use crate::utils::{get_values_by_delim, pieces_of};
use vstd::prelude::*;

verus! {

/// What a line of input asks for.
#[derive(Debug, PartialEq)]
pub enum InputAction {
    AddCharge { charge: Charge },
    AssignCharge { name: String, indices: Vec<String> },
    PrintLastCharge,
    DeleteLastCharge,
    DeleteByIndex { indices: Vec<String> },
    Done,
}

/// What an action holds. Indices are kept as written: they are read as
/// numbers only when the action is applied.
pub enum ActionView {
    AddCharge { charge: ChargeView },
    AssignCharge { name: Seq<char>, indices: Seq<Seq<char>> },
    PrintLastCharge,
    DeleteLastCharge,
    DeleteByIndex { indices: Seq<Seq<char>> },
    Done,
}

/// Why a line is no action.
#[derive(Debug, PartialEq, Eq, Clone, Copy, Structural)]
pub enum ParseError {
    /// The line holds no word.
    NoPattern,
    /// The last word is not a cost above zero.
    InvalidCost,
    /// A cost stands alone, with no name before it.
    MissingName,
    /// An assignment names no person. The grammar turns every such line into
    /// one of the other cases, so no line gives this error.
    InvalidAssignTarget,
}

/// The error of reading an action from a line that holds none.
#[derive(Debug, PartialEq)]
pub struct ParseInputActionError;

impl View for InputAction {
    type V = ActionView;

    open spec fn view(&self) -> ActionView {
        match self {
            InputAction::AddCharge { charge } => ActionView::AddCharge { charge: charge@ },
            InputAction::AssignCharge { name, indices } => ActionView::AssignCharge {
                name: name@,
                indices: texts(indices@),
            },
            InputAction::PrintLastCharge => ActionView::PrintLastCharge,
            InputAction::DeleteLastCharge => ActionView::DeleteLastCharge,
            InputAction::DeleteByIndex { indices } => ActionView::DeleteByIndex {
                indices: texts(indices@),
            },
            InputAction::Done => ActionView::Done,
        }
    }
}

impl Clone for InputAction {
    fn clone(&self) -> (r: Self)
        ensures
            r@ == self@,
    {
        match self {
            InputAction::AddCharge { charge } => InputAction::AddCharge { charge: charge.clone() },
            InputAction::AssignCharge { name, indices } => InputAction::AssignCharge {
                name: name.clone(),
                indices: copy_texts(indices),
            },
            InputAction::PrintLastCharge => InputAction::PrintLastCharge,
            InputAction::DeleteLastCharge => InputAction::DeleteLastCharge,
            InputAction::DeleteByIndex { indices } => InputAction::DeleteByIndex {
                indices: copy_texts(indices),
            },
            InputAction::Done => InputAction::Done,
        }
    }
}

/// The action of a line whose words are `head` followed by `last`, where it
/// is none of the one-word commands.
pub open spec fn parse_entry(head: Seq<Seq<char>>, last: Seq<char>) -> Result<
    ActionView,
    ParseError,
> {
    if head.len() == 1 && lower(head[0]) == "delete"@ {
        Ok(ActionView::DeleteByIndex { indices: pieces_of(last, ","@) })
    } else if head.len() == 2 && lower(head[0]) == "assign"@ {
        Ok(ActionView::AssignCharge { name: head[1], indices: pieces_of(last, ","@) })
    } else {
        match amount_of(last) {
            Some(cost) => if cost.micros == 0 {
                Err(ParseError::InvalidCost)
            } else if head.len() == 0 {
                Err(ParseError::MissingName)
            } else {
                Ok(
                    ActionView::AddCharge {
                        charge: ChargeView {
                            name: join_words(head),
                            cost: cost.micros as nat,
                            is_assigned: false,
                        },
                    },
                )
            },
            None => Err(ParseError::InvalidCost),
        }
    }
}

/// The action that `line` asks for. The one-word commands come first; of any
/// other line the last word decides.
pub open spec fn parse_line(line: Seq<char>) -> Result<ActionView, ParseError> {
    let words = words_of(line);
    if words.len() == 0 {
        Err(ParseError::NoPattern)
    } else if words.len() == 1 && lower(words[0]) == "done"@ {
        Ok(ActionView::Done)
    } else if words.len() == 1 && lower(words[0]) == "delete"@ {
        Ok(ActionView::DeleteLastCharge)
    } else if words.len() == 1 && lower(words[0]) == "last"@ {
        Ok(ActionView::PrintLastCharge)
    } else {
        parse_entry(words.drop_last(), words.last())
    }
}

/// Reads the action that `line` asks for.
pub fn parse(line: &str) -> (r: Result<InputAction, ParseError>)
    ensures
        match r {
            Ok(action) => parse_line(line@) == Ok::<ActionView, ParseError>(action@),
            Err(e) => parse_line(line@) == Err::<ActionView, ParseError>(e),
        },
        r != Err::<InputAction, ParseError>(ParseError::InvalidAssignTarget),
{
    let words = split_words(line);
    let n = words.len();
    if n == 0 {
        return Err(ParseError::NoPattern);
    }
    if n == 1 {
        if is_keyword(words[0].as_str(), "done") {
            return Ok(InputAction::Done);
        }
        if is_keyword(words[0].as_str(), "delete") {
            return Ok(InputAction::DeleteLastCharge);
        }
        if is_keyword(words[0].as_str(), "last") {
            return Ok(InputAction::PrintLastCharge);
        }
    }
    if n == 2 && is_keyword(words[0].as_str(), "delete") {
        let indices = get_values_by_delim(words[n - 1].clone(), ",");
        return Ok(InputAction::DeleteByIndex { indices });
    }
    if n == 3 && is_keyword(words[0].as_str(), "assign") {
        let indices = get_values_by_delim(words[n - 1].clone(), ",");
        return Ok(InputAction::AssignCharge { name: words[1].clone(), indices });
    }
    match Amount::parse(words[n - 1].as_str()) {
        Some(cost) => {
            if cost.micros == 0 {
                Err(ParseError::InvalidCost)
            } else if n == 1 {
                Err(ParseError::MissingName)
            } else {
                let name = join_first(&words, n - 1);
                Ok(InputAction::AddCharge { charge: Charge::new(name, cost) })
            }
        },
        None => Err(ParseError::InvalidCost),
    }
}

/// The line that enters a charge: the name, a blank, and the cost.
pub open spec fn entry_text(name: Seq<char>, cost: Amount) -> Seq<char> {
    name + seq![' '] + amount_text(cost)
}

/// Whether `name` can be entered as the name of a charge: it is made of
/// words with single blanks between them, and is neither the one word
/// "delete" nor "assign" followed by one word.
pub open spec fn is_entry_name(name: Seq<char>) -> bool {
    let words = words_of(name);
    &&& words.len() > 0
    &&& join_words(words) == name
    &&& !(words.len() == 1 && lower(words[0]) == "delete"@)
    &&& !(words.len() == 2 && lower(words[0]) == "assign"@)
}

/// Writes the line that enters a charge of the given name and cost.
pub fn entry_line(name: &str, cost: Amount) -> (line: String)
    ensures
        line@ == entry_text(name@, cost),
{
    let mut line = name.to_owned();
    line.push(' ');
    let numeral = cost.to_text();
    line.append(numeral.as_str());
    line
}

/// Reading the line that enters a charge gives the charge back: for a name
/// that can be entered and a cost above zero, the line made of the name, a
/// blank and the cost's numeral is read as the entry of exactly that charge,
/// not yet assigned.
pub proof fn lemma_entry_round_trip(name: Seq<char>, cost: Amount)
    requires
        is_entry_name(name),
        cost.micros > 0,
    ensures
        parse_line(entry_text(name, cost)) == Ok::<ActionView, ParseError>(
            ActionView::AddCharge {
                charge: ChargeView { name, cost: cost.micros as nat, is_assigned: false },
            },
        ),
{
    let numeral = amount_text(cost);
    lemma_amount_text_round_trip(cost);
    let front = name + seq![' '];
    assert(front.drop_last() =~= name);
    lemma_words_append_word(front, numeral);
    let words = words_of(entry_text(name, cost));
    assert(words.drop_last() =~= words_of(name));
}

/// A charge that a line enters can be entered again: its name is one that
/// can be entered, its cost is above zero, and it is not assigned.
pub proof fn lemma_entries_can_be_entered(line: Seq<char>)
    ensures
        parse_line(line) matches Ok(ActionView::AddCharge { charge }) ==> {
            &&& is_entry_name(charge.name)
            &&& charge.cost > 0
            &&& !charge.is_assigned
        },
{
    if let Ok(ActionView::AddCharge { charge }) = parse_line(line) {
        let words = words_of(line);
        let head = words.drop_last();
        lemma_words_are_words(line);
        lemma_words_of_joined(head);
    }
}

/// The one-word commands come before every other rule: a line that holds,
/// between any spaces, one word that is "done", "delete" or "last" in any
/// mix of upper and lower case is read as that command.
pub proof fn lemma_keyword_precedence(before: Seq<char>, word: Seq<char>, after: Seq<char>)
    requires
        all_spaces(before),
        all_spaces(after),
    ensures
        lower(word) == "done"@ ==> parse_line(before + word + after) == Ok::<
            ActionView,
            ParseError,
        >(ActionView::Done),
        lower(word) == "delete"@ ==> parse_line(before + word + after) == Ok::<
            ActionView,
            ParseError,
        >(ActionView::DeleteLastCharge),
        lower(word) == "last"@ ==> parse_line(before + word + after) == Ok::<
            ActionView,
            ParseError,
        >(ActionView::PrintLastCharge),
{
    reveal_strlit("done");
    reveal_strlit("delete");
    reveal_strlit("last");
    if lower(word) == "done"@ || lower(word) == "delete"@ || lower(word) == "last"@ {
        assert(word.len() == lower(word).len());
        assert forall|i: int| 0 <= i < word.len() implies !is_space(#[trigger] word[i]) by {
            assert(lower(word)[i] == lower_char(word[i]));
        }
        lemma_words_append_spaces(Seq::empty(), before);
        lemma_words_append_word(before, word);
        lemma_words_append_spaces(before + word, after);
        assert("done"@.len() == 4 && "delete"@.len() == 6 && "last"@[0] == 'l');
    }
}

impl std::str::FromStr for InputAction {
    type Err = ParseInputActionError;

    /// Reads the action that `s` asks for.
    fn from_str(s: &str) -> (r: Result<Self, Self::Err>)
        ensures
            r is Ok <==> parse_line(s@) is Ok,
            r is Ok ==> r->Ok_0@ == parse_line(s@)->Ok_0,
    {
        match parse(s) {
            Ok(action) => Ok(action),
            Err(_) => Err(ParseInputActionError),
        }
    }
}

} // verus!
