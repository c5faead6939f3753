//! Indices into a list of candidates: how index tokens are read, and what
//! deleting by index leaves of the list.

use crate::amount::{all_digits, digits_end, digits_value, is_digit, number_in, unsigned};
use crate::charges::{charge_views, Charge, ChargeView};
use crate::text::{chars_of, texts};
use vstd::prelude::*;

verus! {

/// Why the indices of a command could not be used.
#[derive(Debug, PartialEq)]
pub enum IndexResolutionError {
    /// This token is not a number.
    NonNumeric { token: String },
    /// This index points at no candidate.
    OutOfRange { index: usize },
}

/// What an index error holds.
pub enum IndexErrorView {
    NonNumeric { token: Seq<char> },
    OutOfRange { index: nat },
}

impl View for IndexResolutionError {
    type V = IndexErrorView;

    open spec fn view(&self) -> IndexErrorView {
        match self {
            IndexResolutionError::NonNumeric { token } => IndexErrorView::NonNumeric {
                token: token@,
            },
            IndexResolutionError::OutOfRange { index } => IndexErrorView::OutOfRange {
                index: *index as nat,
            },
        }
    }
}

/// The number that the token `t` denotes: `t` is an optional plus sign and
/// one digit or more, and the number is within the range of `usize`.
pub open spec fn index_of(t: Seq<char>) -> Option<nat> {
    if unsigned(t).len() > 0 && all_digits(unsigned(t)) && digits_value(unsigned(t))
        <= usize::MAX {
        Some(digits_value(unsigned(t)))
    } else {
        None
    }
}

/// The position of the first token that denotes no number; the number of
/// tokens where each denotes one.
pub open spec fn first_unreadable(tokens: Seq<Seq<char>>) -> int
    decreases tokens.len(),
{
    if tokens.len() == 0 || index_of(tokens[0]) is None {
        0
    } else {
        1 + first_unreadable(tokens.drop_first())
    }
}

/// The numbers that the tokens denote.
pub open spec fn indices_of(tokens: Seq<Seq<char>>) -> Seq<nat> {
    Seq::new(tokens.len(), |i: int| index_of(tokens[i]).unwrap_or(0))
}

/// The numbers of a sequence of machine integers.
pub open spec fn nats(s: Seq<usize>) -> Seq<nat> {
    Seq::new(s.len(), |i: int| s[i] as nat)
}

/// `x` put into the descending sequence `sorted`, before the first element
/// that is not above it.
pub open spec fn insert_desc(sorted: Seq<nat>, x: nat) -> Seq<nat>
    decreases sorted.len(),
{
    if sorted.len() == 0 || x >= sorted[0] {
        seq![x] + sorted
    } else {
        seq![sorted[0]] + insert_desc(sorted.drop_first(), x)
    }
}

/// The elements of `s` in descending order.
pub open spec fn sort_desc(s: Seq<nat>) -> Seq<nat>
    decreases s.len(),
{
    if s.len() == 0 {
        s
    } else {
        insert_desc(sort_desc(s.drop_last()), s.last())
    }
}

/// Whether `s` descends, equal neighbours allowed.
pub open spec fn is_descending(s: Seq<nat>) -> bool {
    forall|i: int, j: int| 0 <= i < j < s.len() ==> s[i] >= s[j]
}

/// The position in `d` of the first index that points at nothing when its
/// turn comes, where the indices of `d` are taken out of a list of `n`
/// elements one after the other; the length of `d` where each points at an
/// element.
pub open spec fn first_unremovable(n: nat, d: Seq<nat>) -> int
    decreases d.len(),
{
    if d.len() == 0 || !(1 <= d[0] <= n) {
        0
    } else {
        1 + first_unremovable((n - 1) as nat, d.drop_first())
    }
}

/// `list` after the elements at the indices `d`, counted from 1, were taken
/// out one after the other, each index counted in the list as it then is.
pub open spec fn remove_each<T>(list: Seq<T>, d: Seq<nat>) -> Seq<T>
    decreases d.len(),
{
    if d.len() == 0 {
        list
    } else {
        remove_each(list.remove(d[0] - 1), d.drop_first())
    }
}

/// The elements that `remove_each` takes out, in the order in which it
/// takes them.
pub open spec fn removed_by<T>(list: Seq<T>, d: Seq<nat>) -> Seq<T>
    decreases d.len(),
{
    if d.len() == 0 {
        Seq::empty()
    } else {
        seq![list[d[0] - 1]] + removed_by(list.remove(d[0] - 1), d.drop_first())
    }
}

/// `list` without the elements whose position, counted from 1, is among
/// `idx`.
pub open spec fn without_positions<T>(list: Seq<T>, idx: Seq<nat>) -> Seq<T>
    decreases list.len(),
{
    if list.len() == 0 {
        list
    } else {
        let before = without_positions(list.drop_last(), idx);
        if idx.contains(list.len()) {
            before
        } else {
            before.push(list.last())
        }
    }
}

/// Why a deletion by the index tokens `tokens` is refused for a list of `n`
/// candidates, if it is: the first token that is no number; else, the
/// indices taken in descending order, the first that points at nothing when
/// its turn comes.
pub open spec fn delete_error(n: nat, tokens: Seq<Seq<char>>) -> Option<IndexErrorView> {
    let order = sort_desc(indices_of(tokens));
    if first_unreadable(tokens) < tokens.len() {
        Some(IndexErrorView::NonNumeric { token: tokens[first_unreadable(tokens)] })
    } else if first_unremovable(n, order) < order.len() {
        Some(IndexErrorView::OutOfRange { index: order[first_unremovable(n, order)] })
    } else {
        None
    }
}

/// The first index that cannot be taken out is the one at `k`, where each
/// before it points at an element when its turn comes.
pub proof fn lemma_first_unremovable(n: nat, d: Seq<nat>, k: int)
    requires
        0 <= k <= d.len(),
        forall|j: int| 0 <= j < k ==> 1 <= #[trigger] d[j] <= n - j,
        k < d.len() ==> !(1 <= d[k] <= n - k),
    ensures
        first_unremovable(n, d) == k,
    decreases k,
{
    if k > 0 {
        let rest = d.drop_first();
        lemma_first_unremovable((n - 1) as nat, rest, k - 1);
    }
}

/// The first unreadable token is the one at `k`, where every token before
/// it denotes a number.
pub proof fn lemma_first_unreadable(tokens: Seq<Seq<char>>, k: int)
    requires
        0 <= k <= tokens.len(),
        forall|j: int| 0 <= j < k ==> index_of(#[trigger] tokens[j]) is Some,
        k < tokens.len() ==> index_of(tokens[k]) is None,
    ensures
        first_unreadable(tokens) == k,
    decreases k,
{
    if k > 0 {
        let rest = tokens.drop_first();
        lemma_first_unreadable(rest, k - 1);
    }
}

/// The position at which `x` is put into the descending sequence `sorted`:
/// that of the first element that is not above it.
pub open spec fn insert_point(sorted: Seq<nat>, x: nat) -> int
    decreases sorted.len(),
{
    if sorted.len() == 0 || x >= sorted[0] {
        0
    } else {
        1 + insert_point(sorted.drop_first(), x)
    }
}

/// Every element before the insert point is above `x`, the one at it is not,
/// and putting `x` into the sequence puts it there.
pub proof fn lemma_insert_point(sorted: Seq<nat>, x: nat)
    ensures
        0 <= insert_point(sorted, x) <= sorted.len(),
        forall|j: int| 0 <= j < insert_point(sorted, x) ==> sorted[j] > x,
        insert_point(sorted, x) < sorted.len() ==> x >= sorted[insert_point(sorted, x)],
        insert_desc(sorted, x) == sorted.insert(insert_point(sorted, x), x),
    decreases sorted.len(),
{
    if sorted.len() > 0 && x < sorted[0] {
        let rest = sorted.drop_first();
        let at = insert_point(rest, x);
        lemma_insert_point(rest, x);
        assert forall|j: int| 0 <= j < at + 1 implies sorted[j] > x by {
            if j > 0 {
                assert(rest[j - 1] == sorted[j]);
            }
        }
    }
}

/// The insert point is `at`, where every element before `at` is above `x`
/// and the one at `at` is not.
pub proof fn lemma_insert_desc(sorted: Seq<nat>, x: nat, at: int)
    requires
        0 <= at <= sorted.len(),
        forall|j: int| 0 <= j < at ==> sorted[j] > x,
        at < sorted.len() ==> x >= sorted[at],
    ensures
        insert_desc(sorted, x) == sorted.insert(at, x),
{
    lemma_insert_point(sorted, x);
}

/// Putting `x` into a descending sequence keeps it descending, makes it one
/// longer, and adds `x` to its elements and nothing else.
pub proof fn lemma_insert_desc_keeps(sorted: Seq<nat>, x: nat)
    requires
        is_descending(sorted),
    ensures
        is_descending(insert_desc(sorted, x)),
        insert_desc(sorted, x).len() == sorted.len() + 1,
        insert_desc(sorted, x).contains(x),
        forall|y: nat| sorted.contains(y) ==> #[trigger] insert_desc(sorted, x).contains(y),
        forall|y: nat| #[trigger]
            insert_desc(sorted, x).contains(y) ==> y == x || sorted.contains(y),
        sorted.no_duplicates() && !sorted.contains(x) ==> insert_desc(sorted, x).no_duplicates(),
{
    lemma_insert_point(sorted, x);
    let p = insert_point(sorted, x);
    let r = insert_desc(sorted, x);
    assert(r[p] == x);
    assert forall|y: nat| sorted.contains(y) implies #[trigger] r.contains(y) by {
        let k = choose|k: int| 0 <= k < sorted.len() && sorted[k] == y;
        if k < p {
            assert(r[k] == y);
        } else {
            assert(r[k + 1] == y);
        }
    }
}

/// The descending order of `s` descends, is as long as `s`, and holds the
/// elements of `s` and no others; where no element of `s` occurs twice, none
/// occurs twice in it.
pub proof fn lemma_sort_desc(s: Seq<nat>)
    ensures
        is_descending(sort_desc(s)),
        sort_desc(s).len() == s.len(),
        forall|y: nat| s.contains(y) ==> #[trigger] sort_desc(s).contains(y),
        forall|y: nat| #[trigger] sort_desc(s).contains(y) ==> s.contains(y),
        s.no_duplicates() ==> sort_desc(s).no_duplicates(),
    decreases s.len(),
{
    if s.len() > 0 {
        let before = s.drop_last();
        let d = sort_desc(before);
        let r = sort_desc(s);
        lemma_sort_desc(before);
        lemma_insert_desc_keeps(d, s.last());
        assert forall|y: nat| s.contains(y) implies #[trigger] r.contains(y) by {
            let k = choose|k: int| 0 <= k < s.len() && s[k] == y;
            if k < s.len() - 1 {
                assert(before[k] == y);
            }
        }
    }
}

/// Whether each element of `d` is above the next.
pub open spec fn is_strictly_descending(d: Seq<nat>) -> bool {
    forall|i: int, j: int| 0 <= i < j < d.len() ==> d[i] > d[j]
}

/// What is left depends only on which positions of the list are among the
/// indices.
pub proof fn lemma_without_same_positions<T>(list: Seq<T>, a: Seq<nat>, b: Seq<nat>)
    requires
        forall|p: nat| 1 <= p <= list.len() ==> (a.contains(p) <==> b.contains(p)),
    ensures
        without_positions(list, a) == without_positions(list, b),
    decreases list.len(),
{
    if list.len() > 0 {
        lemma_without_same_positions(list.drop_last(), a, b);
    }
}

/// Where no position of the list is among the indices, the list is left as
/// it is.
pub proof fn lemma_without_none<T>(list: Seq<T>, idx: Seq<nat>)
    requires
        forall|p: nat| 1 <= p <= list.len() ==> !idx.contains(p),
    ensures
        without_positions(list, idx) == list,
    decreases list.len(),
{
    if list.len() > 0 {
        lemma_without_none(list.drop_last(), idx);
    }
}

/// Taking out the element at the highest index first leaves the other
/// indices pointing at the elements they pointed at.
pub proof fn lemma_remove_highest<T>(list: Seq<T>, d: Seq<nat>)
    requires
        d.len() > 0,
        is_strictly_descending(d),
        1 <= d[0] <= list.len(),
    ensures
        without_positions(list.remove(d[0] - 1), d.drop_first()) == without_positions(list, d),
    decreases list.len(),
{
    let n = list.len();
    let h = d[0];
    let rest = d.drop_first();
    let shorter = list.remove(h - 1);
    if h == n {
        assert forall|p: nat| 1 <= p <= n - 1 implies (d.contains(p) <==> rest.contains(p)) by {
            if d.contains(p) {
                let k = choose|k: int| 0 <= k < d.len() && d[k] == p;
                assert(rest[k - 1] == p);
            }
        }
        lemma_without_same_positions(list.drop_last(), d, rest);
    } else {
        assert(shorter.drop_last() =~= list.drop_last().remove(h - 1));
        lemma_remove_highest(list.drop_last(), d);
    }
}

/// Taking out the elements at strictly descending indices, each of which
/// points into the list, is accepted at every step and leaves the list
/// without the elements at those positions.
pub proof fn lemma_remove_descending<T>(list: Seq<T>, d: Seq<nat>)
    requires
        is_strictly_descending(d),
        forall|k: int| 0 <= k < d.len() ==> 1 <= #[trigger] d[k] <= list.len(),
    ensures
        first_unremovable(list.len(), d) == d.len(),
        remove_each(list, d) == without_positions(list, d),
    decreases d.len(),
{
    if d.len() == 0 {
        lemma_without_none(list, d);
    } else {
        let rest = d.drop_first();
        let shorter = list.remove(d[0] - 1);
        lemma_remove_descending(shorter, rest);
        lemma_remove_highest(list, d);
    }
}

/// Deleting by index takes out exactly the positions named: for indices
/// that each point into the list and of which none is given twice, the
/// deletion is accepted, and what is left is the list without the elements
/// at those positions.
pub proof fn lemma_delete_by_positions<T>(list: Seq<T>, idx: Seq<nat>)
    requires
        idx.no_duplicates(),
        forall|k: int| 0 <= k < idx.len() ==> 1 <= #[trigger] idx[k] <= list.len(),
    ensures
        first_unremovable(list.len(), sort_desc(idx)) == sort_desc(idx).len(),
        remove_each(list, sort_desc(idx)) == without_positions(list, idx),
{
    let d = sort_desc(idx);
    lemma_sort_desc(idx);
    assert forall|k: int| 0 <= k < d.len() implies 1 <= #[trigger] d[k] <= list.len() by {
        assert(d.contains(d[k]));
    }
    lemma_remove_descending(list, d);
    lemma_without_same_positions(list, d, idx);
}

/// The order in which the indices of a deletion are given does not matter:
/// two sequences of indices that each point into the list, hold no index
/// twice and hold the same indices leave the same list.
pub proof fn lemma_delete_order_free<T>(list: Seq<T>, a: Seq<nat>, b: Seq<nat>)
    requires
        a.no_duplicates(),
        b.no_duplicates(),
        forall|k: int| 0 <= k < a.len() ==> 1 <= #[trigger] a[k] <= list.len(),
        forall|y: nat| a.contains(y) <==> b.contains(y),
    ensures
        remove_each(list, sort_desc(a)) == remove_each(list, sort_desc(b)),
{
    assert forall|k: int| 0 <= k < b.len() implies 1 <= #[trigger] b[k] <= list.len() by {
        assert(b.contains(b[k]));
    }
    lemma_delete_by_positions(list, a);
    lemma_delete_by_positions(list, b);
    lemma_without_same_positions(list, a, b);
}

/// Reads a token as an index.
pub fn parse_index(token: &str) -> (r: Option<usize>)
    ensures
        r is Some <==> index_of(token@) is Some,
        r is Some ==> r->0 == index_of(token@)->0,
{
    let cs = chars_of(token);
    let n = cs.len();
    let from: usize = if n > 0 && cs[0] == '+' {
        1
    } else {
        0
    };
    let ghost u = unsigned(token@);
    assert(u =~= cs@.skip(from as int));
    let end = digits_end(&cs, from);
    if end < n {
        assert(u[end - from] == cs[end as int]);
        return None;
    }
    if from == n {
        return None;
    }
    match number_in(&cs, from, n, usize::MAX as u64) {
        Some(v) => Some(v as usize),
        None => None,
    }
}

/// Reads every token as an index; names the first token that is none.
pub(crate) fn read_indices(tokens: &Vec<String>) -> (r: Result<Vec<usize>, IndexResolutionError>)
    ensures
        match r {
            Ok(indices) => {
                &&& first_unreadable(texts(tokens@)) == tokens.len()
                &&& nats(indices@) == indices_of(texts(tokens@))
            },
            Err(e) => {
                &&& first_unreadable(texts(tokens@)) < tokens.len()
                &&& e@ == IndexErrorView::NonNumeric {
                    token: texts(tokens@)[first_unreadable(texts(tokens@))],
                }
            },
        },
{
    let ghost all = texts(tokens@);
    let mut indices: Vec<usize> = Vec::new();
    let mut i: usize = 0;
    while i < tokens.len()
        invariant
            i <= tokens.len(),
            all == texts(tokens@),
            indices.len() == i,
            forall|j: int| 0 <= j < i ==> index_of(#[trigger] all[j]) == Some(indices[j] as nat),
        decreases tokens.len() - i,
    {
        match parse_index(tokens[i].as_str()) {
            Some(index) => {
                indices.push(index);
            },
            None => {
                proof {
                    lemma_first_unreadable(all, i as int);
                }
                return Err(IndexResolutionError::NonNumeric { token: tokens[i].clone() });
            },
        }
        i += 1;
    }
    proof {
        lemma_first_unreadable(all, i as int);
    }
    Ok(indices)
}

/// The elements of `v` in descending order.
pub fn sorted_descending(v: &Vec<usize>) -> (r: Vec<usize>)
    ensures
        nats(r@) == sort_desc(nats(v@)),
{
    let mut r: Vec<usize> = Vec::new();
    let mut i: usize = 0;
    while i < v.len()
        invariant
            i <= v.len(),
            r.len() == i,
            nats(r@) == sort_desc(nats(v@).take(i as int)),
        decreases v.len() - i,
    {
        let x = v[i];
        let mut at: usize = 0;
        while at < r.len() && r[at] > x
            invariant
                at <= r.len(),
                forall|j: int| 0 <= j < at ==> r[j] > x,
            decreases r.len() - at,
        {
            at += 1;
        }
        let ghost before = nats(r@);
        r.insert(at, x);
        proof {
            let now = nats(v@).take(i + 1);
            assert(now.drop_last() =~= nats(v@).take(i as int));
            lemma_insert_desc(before, x as nat, at as int);
        }
        i += 1;
    }
    assert(nats(v@).take(i as int) =~= nats(v@));
    r
}

/// Takes the candidates at the indices that `indices` denote out of
/// `candidates`, highest index first, and returns them in that order.
/// Nothing is taken out unless every token is a number and every index
/// points at a candidate when its turn comes.
pub fn delete_by_index(candidates: &mut Vec<Charge>, indices: &Vec<String>) -> (r: Result<
    Vec<Charge>,
    IndexResolutionError,
>)
    ensures
        match r {
            Ok(removed) => {
                &&& delete_error(old(candidates).len() as nat, texts(indices@)) is None
                &&& charge_views(final(candidates)@) == remove_each(
                    charge_views(old(candidates)@),
                    sort_desc(indices_of(texts(indices@))),
                )
                &&& charge_views(removed@) == removed_by(
                    charge_views(old(candidates)@),
                    sort_desc(indices_of(texts(indices@))),
                )
            },
            Err(e) => {
                &&& delete_error(old(candidates).len() as nat, texts(indices@)) == Some(e@)
                &&& final(candidates)@ == old(candidates)@
            },
        },
{
    let read = match read_indices(indices) {
        Ok(read) => read,
        Err(e) => { return Err(e); },
    };
    let d = sorted_descending(&read);
    let ghost order = sort_desc(indices_of(texts(indices@)));
    let ghost before = charge_views(candidates@);
    let n = candidates.len();
    let mut k: usize = 0;
    while k < d.len()
        invariant
            k <= d.len(),
            n == candidates.len(),
            candidates@ == old(candidates)@,
            nats(d@) == order,
            order == sort_desc(indices_of(texts(indices@))),
            first_unreadable(texts(indices@)) == indices.len(),
            forall|j: int| 0 <= j < k ==> 1 <= #[trigger] order[j] <= n - j,
        decreases d.len() - k,
    {
        if d[k] < 1 || k >= n || d[k] > n - k {
            proof {
                lemma_first_unremovable(n as nat, order, k as int);
            }
            return Err(IndexResolutionError::OutOfRange { index: d[k] });
        }
        k += 1;
    }
    proof {
        lemma_first_unremovable(n as nat, order, k as int);
    }
    let mut removed: Vec<Charge> = Vec::new();
    let mut j: usize = 0;
    assert(order.skip(0) =~= order);
    while j < d.len()
        invariant
            j <= d.len(),
            nats(d@) == order,
            candidates.len() == n - j,
            forall|i: int| 0 <= i < order.len() ==> 1 <= #[trigger] order[i] <= n - i,
            remove_each(charge_views(candidates@), order.skip(j as int)) == remove_each(
                before,
                order,
            ),
            charge_views(removed@) + removed_by(charge_views(candidates@), order.skip(j as int))
                == removed_by(before, order),
        decreases d.len() - j,
    {
        let ghost rest = order.skip(j as int);
        let ghost now = charge_views(candidates@);
        let ghost taken = charge_views(removed@);
        assert(rest.drop_first() =~= order.skip(j + 1));
        let charge = candidates.remove(d[j] - 1);
        removed.push(charge);
        proof {
            assert(charge_views(candidates@) =~= now.remove(d[j as int] - 1));
            let tail = removed_by(now.remove(d[j as int] - 1), order.skip(j + 1));
            assert(taken + (seq![now[d[j as int] - 1]] + tail) =~= taken.push(
                now[d[j as int] - 1],
            ) + tail);
        }
        j += 1;
    }
    Ok(removed)
}

/// The position in `idx` of the first index that points at none of `n`
/// candidates; the length of `idx` where each points at one.
pub open spec fn first_out_of_range(n: nat, idx: Seq<nat>) -> int
    decreases idx.len(),
{
    if idx.len() == 0 || !(1 <= idx[0] <= n) {
        0
    } else {
        1 + first_out_of_range(n, idx.drop_first())
    }
}

/// Why an assignment by the index tokens `tokens` is refused for a list of
/// `n` candidates, if it is: the first token that is no number; else the
/// first index that points at no candidate.
pub open spec fn assign_error(n: nat, tokens: Seq<Seq<char>>) -> Option<IndexErrorView> {
    let idx = indices_of(tokens);
    if first_unreadable(tokens) < tokens.len() {
        Some(IndexErrorView::NonNumeric { token: tokens[first_unreadable(tokens)] })
    } else if first_out_of_range(n, idx) < idx.len() {
        Some(IndexErrorView::OutOfRange { index: idx[first_out_of_range(n, idx)] })
    } else {
        None
    }
}

/// The first index out of range is the one at `k`, where each before it
/// points at a candidate.
pub proof fn lemma_first_out_of_range(n: nat, idx: Seq<nat>, k: int)
    requires
        0 <= k <= idx.len(),
        forall|j: int| 0 <= j < k ==> 1 <= #[trigger] idx[j] <= n,
        k < idx.len() ==> !(1 <= idx[k] <= n),
    ensures
        first_out_of_range(n, idx) == k,
    decreases k,
{
    if k > 0 {
        let rest = idx.drop_first();
        lemma_first_out_of_range(n, rest, k - 1);
    }
}

} // verus!
