//! Splitting a text at a delimiter.

use crate::text::{chars_of, text_of, texts};
use vstd::prelude::*;

verus! {

/// Whether `d` stands in `s` at position `i`.
pub open spec fn occurs_at(s: Seq<char>, d: Seq<char>, i: int) -> bool {
    0 <= i && i + d.len() <= s.len() && s.subrange(i, i + d.len()) == d
}

/// The position of the first occurrence of `d` in `s`; the length of `s`
/// where there is none.
pub open spec fn first_occurrence(s: Seq<char>, d: Seq<char>) -> int
    decreases s.len(),
{
    if s.len() == 0 || occurs_at(s, d, 0) {
        0
    } else {
        1 + first_occurrence(s.drop_first(), d)
    }
}

/// The pieces that the occurrences of `d` cut `s` into, read from the left
/// and without the empty ones. An empty `d` cuts between any two
/// characters.
pub open spec fn pieces_of(s: Seq<char>, d: Seq<char>) -> Seq<Seq<char>>
    decreases s.len(),
{
    if s.len() == 0 {
        Seq::empty()
    } else if d.len() == 0 {
        seq![s.take(1)] + pieces_of(s.skip(1), d)
    } else {
        let i = first_occurrence(s, d);
        let tail = if 0 <= i && i + d.len() <= s.len() {
            pieces_of(s.skip(i + d.len()), d)
        } else {
            Seq::empty()
        };
        if 0 < i <= s.len() {
            seq![s.take(i)] + tail
        } else {
            tail
        }
    }
}

/// Where `d` occurs in a suffix of `s`, it occurs in `s`.
pub proof fn lemma_occurs_in_suffix(s: Seq<char>, d: Seq<char>, a: int, j: int)
    requires
        0 <= a <= s.len(),
        0 <= j,
    ensures
        occurs_at(s.skip(a), d, j) == occurs_at(s, d, a + j),
{
    if j + d.len() <= s.len() - a {
        assert(s.skip(a).subrange(j, j + d.len()) =~= s.subrange(a + j, a + j + d.len()));
    }
}

/// The first occurrence is where `d` occurs and nowhere before.
pub proof fn lemma_first_occurrence(s: Seq<char>, d: Seq<char>, k: int)
    requires
        0 <= k <= s.len(),
        forall|j: int| 0 <= j < k ==> !occurs_at(s, d, j),
        k < s.len() ==> occurs_at(s, d, k),
    ensures
        first_occurrence(s, d) == k,
    decreases k,
{
    if k > 0 {
        let t = s.drop_first();
        assert forall|j: int| 0 <= j < k - 1 implies !occurs_at(t, d, j) by {
            lemma_occurs_in_suffix(s, d, 1, j);
        }
        if k < s.len() {
            lemma_occurs_in_suffix(s, d, 1, k - 1);
        }
        lemma_first_occurrence(t, d, k - 1);
    }
}

/// No piece is empty.
pub proof fn lemma_pieces_not_empty(s: Seq<char>, d: Seq<char>)
    ensures
        forall|i: int| 0 <= i < pieces_of(s, d).len() ==> (#[trigger] pieces_of(s, d)[i]).len() > 0,
    decreases s.len(),
{
    let pieces = pieces_of(s, d);
    if s.len() == 0 {
    } else if d.len() == 0 {
        let tail = pieces_of(s.skip(1), d);
        lemma_pieces_not_empty(s.skip(1), d);
        assert forall|i: int| 0 <= i < pieces.len() implies (#[trigger] pieces[i]).len() > 0 by {
            if i > 0 {
                assert(pieces[i] == tail[i - 1]);
            }
        }
    } else {
        let i = first_occurrence(s, d);
        if 0 <= i && i + d.len() <= s.len() {
            let tail = pieces_of(s.skip(i + d.len()), d);
            lemma_pieces_not_empty(s.skip(i + d.len()), d);
            assert forall|k: int| 0 <= k < pieces.len() implies (#[trigger] pieces[k]).len()
                > 0 by {
                if 0 < i {
                    if k > 0 {
                        assert(pieces[k] == tail[k - 1]);
                    }
                } else {
                    assert(pieces[k] == tail[k]);
                }
            }
        }
    }
}

/// Whether `d` stands in `cs` at position `i`.
pub(crate) fn stands_at(cs: &Vec<char>, d: &Vec<char>, i: usize) -> (r: bool)
    requires
        i <= cs.len(),
    ensures
        r == occurs_at(cs@, d@, i as int),
{
    if d.len() > cs.len() - i {
        return false;
    }
    let mut k: usize = 0;
    while k < d.len()
        invariant
            k <= d.len(),
            i + d.len() <= cs.len(),
            forall|j: int| 0 <= j < k ==> cs[i + j] == d[j],
        decreases d.len() - k,
    {
        if cs[i + k] != d[k] {
            return false;
        }
        k += 1;
    }
    assert(cs@.subrange(i as int, i + d.len()) =~= d@);
    true
}

/// Cuts `s` at every occurrence of `delim` and returns the pieces that are
/// not empty, in order.
pub fn get_values_by_delim(s: String, delim: &str) -> (values: Vec<String>)
    ensures
        texts(values@) == pieces_of(s@, delim@),
        forall|i: int| 0 <= i < values.len() ==> (#[trigger] values[i])@.len() > 0,
{
    proof {
        lemma_pieces_not_empty(s@, delim@);
    }
    let cs = chars_of(s.as_str());
    let d = chars_of(delim);
    let n = cs.len();
    let mut values: Vec<String> = Vec::new();
    let mut start: usize = 0;
    let mut i: usize = 0;
    assert(cs@.skip(0) =~= cs@);
    while i < n
        invariant
            start <= i <= n,
            n == cs.len(),
            d.len() == 0 ==> start == i,
            pieces_of(cs@, d@) == texts(values@) + pieces_of(cs@.skip(start as int), d@),
            forall|j: int| start <= j < i ==> !occurs_at(cs@, d@, j),
        decreases n - i,
    {
        let ghost rest = cs@.skip(start as int);
        let ghost before = texts(values@);
        if d.len() == 0 {
            let piece = text_of(&cs, i, i + 1);
            values.push(piece);
            i += 1;
            start = i;
            proof {
                assert(rest.take(1) =~= cs@.subrange(i - 1, i as int));
                assert(rest.skip(1) =~= cs@.skip(i as int));
                assert(before + (seq![rest.take(1)] + pieces_of(rest.skip(1), d@))
                    =~= before.push(rest.take(1)) + pieces_of(rest.skip(1), d@));
            }
        } else if stands_at(&cs, &d, i) {
            proof {
                assert forall|j: int| 0 <= j < i - start implies !occurs_at(rest, d@, j) by {
                    lemma_occurs_in_suffix(cs@, d@, start as int, j);
                }
                lemma_occurs_in_suffix(cs@, d@, start as int, i - start);
                lemma_first_occurrence(rest, d@, i - start);
                assert(rest.skip(i - start + d.len()) =~= cs@.skip(i + d.len()));
                assert(rest.take(i - start) =~= cs@.subrange(start as int, i as int));
            }
            if start < i {
                let piece = text_of(&cs, start, i);
                values.push(piece);
            }
            i += d.len();
            start = i;
        } else {
            i += 1;
        }
    }
    proof {
        let rest = cs@.skip(start as int);
        if d.len() > 0 {
            assert forall|j: int| 0 <= j < n - start implies !occurs_at(rest, d@, j) by {
                lemma_occurs_in_suffix(cs@, d@, start as int, j);
            }
            lemma_first_occurrence(rest, d@, n - start);
            assert(rest.take(n - start) =~= cs@.subrange(start as int, n as int));
        }
    }
    if start < n {
        let ghost before = texts(values@);
        let piece = text_of(&cs, start, n);
        values.push(piece);
        proof {
            let p = cs@.subrange(start as int, n as int);
            assert(texts(values@) =~= before.push(p));
            assert(before + (seq![p] + Seq::<Seq<char>>::empty()) =~= before.push(p));
        }
    }
    assert forall|i: int| 0 <= i < values.len() implies (#[trigger] values[i])@.len() > 0 by {
        assert(texts(values@)[i] == values[i]@);
    }
    values
}

} // verus!
