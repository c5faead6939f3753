//! Characters, words and case folding: the text primitives the line grammar
//! is built from.

use vstd::prelude::*;

verus! {

/// `String::push` of the standard library: the string afterwards is the
/// string before with `c` added at its end.
pub assume_specification[ String::push ](s: &mut String, c: char)
    ensures
        final(s)@ == old(s)@.push(c),
;

/// The title-case form of `text` as the crate `titlecase` writes it.
pub uninterp spec fn titlecase_of(text: Seq<char>) -> Seq<char>;

/// The most opening brackets that a text may hold to be put in title case.
pub const MAX_BRACKETS: usize = 64;

/// The number of opening brackets in `s`.
pub open spec fn brackets_in(s: Seq<char>) -> nat
    decreases s.len(),
{
    if s.len() == 0 {
        0
    } else if s.last() == '(' {
        brackets_in(s.drop_last()) + 1
    } else {
        brackets_in(s.drop_last())
    }
}

/// The label under which a text is shown: its title-case form, or the text
/// as it is where it holds more opening brackets than `MAX_BRACKETS`.
pub open spec fn label_text(text: Seq<char>) -> Seq<char> {
    if brackets_in(text) <= MAX_BRACKETS {
        titlecase_of(text)
    } else {
        text
    }
}

/// `titlecase::titlecase`: the result is the title-case form of `text`, which
/// depends on nothing but `text`. The crate calls itself once for each
/// bracket that a word opens with, so its stack grows with the brackets: a
/// text with more than `MAX_BRACKETS` of them is not handed to it.
#[verifier::external_body]
pub(crate) fn title_case(text: &str) -> (title: String)
    requires
        brackets_in(text@) <= MAX_BRACKETS,
    ensures
        title@ == titlecase_of(text@),
{
    titlecase::titlecase(text)
}

/// Whether `c` separates words: the characters that Unicode lists as
/// `White_Space`.
pub open spec fn is_space(c: char) -> bool {
    let n = c as u32;
    ||| 0x09 <= n <= 0x0D
    ||| n == 0x20
    ||| n == 0x85
    ||| n == 0xA0
    ||| n == 0x1680
    ||| 0x2000 <= n <= 0x200A
    ||| n == 0x2028
    ||| n == 0x2029
    ||| n == 0x202F
    ||| n == 0x205F
    ||| n == 0x3000
}

/// `c` with an upper-case ASCII letter replaced by its lower-case form.
pub open spec fn lower_char(c: char) -> char {
    if 'A' <= c && c <= 'Z' {
        ((c as u8) + 32) as char
    } else {
        c
    }
}

/// `s` with every upper-case ASCII letter replaced by its lower-case form.
pub open spec fn lower(s: Seq<char>) -> Seq<char> {
    Seq::new(s.len(), |i: int| lower_char(s[i]))
}

/// The words of `s`: its maximal runs of characters that are not spaces, in
/// order.
pub open spec fn words_of(s: Seq<char>) -> Seq<Seq<char>>
    decreases s.len(),
{
    if s.len() == 0 {
        Seq::empty()
    } else {
        let before = words_of(s.drop_last());
        if is_space(s.last()) {
            before
        } else if s.len() >= 2 && !is_space(s[s.len() - 2]) {
            before.drop_last().push(before.last().push(s.last()))
        } else {
            before.push(seq![s.last()])
        }
    }
}

/// The words joined by single blanks.
pub open spec fn join_words(words: Seq<Seq<char>>) -> Seq<char>
    decreases words.len(),
{
    if words.len() == 0 {
        Seq::empty()
    } else if words.len() == 1 {
        words[0]
    } else {
        join_words(words.drop_last()) + seq![' '] + words.last()
    }
}

/// The views of a vector of strings.
pub open spec fn texts(v: Seq<String>) -> Seq<Seq<char>> {
    Seq::new(v.len(), |i: int| v[i]@)
}

/// Whether no character of `s` is a space.
pub open spec fn space_free(s: Seq<char>) -> bool {
    forall|i: int| 0 <= i < s.len() ==> !is_space(#[trigger] s[i])
}

/// Whether every character of `s` is a space.
pub open spec fn all_spaces(s: Seq<char>) -> bool {
    forall|i: int| 0 <= i < s.len() ==> is_space(#[trigger] s[i])
}

/// Spaces at the end of a text add no word.
pub proof fn lemma_words_append_spaces(p: Seq<char>, spaces: Seq<char>)
    requires
        all_spaces(spaces),
    ensures
        words_of(p + spaces) == words_of(p),
    decreases spaces.len(),
{
    if spaces.len() > 0 {
        lemma_words_append_spaces(p, spaces.drop_last());
        assert((p + spaces).drop_last() =~= p + spaces.drop_last());
    }
}

/// A word written after a text that is empty or ends in a space is one more
/// word.
pub proof fn lemma_words_append_word(p: Seq<char>, word: Seq<char>)
    requires
        p.len() == 0 || is_space(p.last()),
        word.len() > 0,
        space_free(word),
    ensures
        words_of(p + word) == words_of(p).push(word),
    decreases word.len(),
{
    let s = p + word;
    if word.len() == 1 {
        assert(s.drop_last() =~= p);
        assert(seq![s.last()] =~= word);
    } else {
        let shorter = word.drop_last();
        lemma_words_append_word(p, shorter);
        assert(s.drop_last() =~= p + shorter);
        let before = words_of(p).push(shorter);
        assert(before.last().push(s.last()) =~= word);
    }
}

/// Whether `words` are words: none is empty, and none holds a space.
pub open spec fn are_words(words: Seq<Seq<char>>) -> bool {
    forall|i: int|
        0 <= i < words.len() ==> (#[trigger] words[i]).len() > 0 && space_free(words[i])
}

/// The words of a text are words, and a text that ends in no space ends in
/// its last word.
pub proof fn lemma_words_are_words(s: Seq<char>)
    ensures
        are_words(words_of(s)),
        s.len() > 0 && !is_space(s.last()) ==> words_of(s).len() > 0 && words_of(s).last().last()
            == s.last(),
    decreases s.len(),
{
    if s.len() > 0 {
        lemma_words_are_words(s.drop_last());
    }
}

/// Words joined by single blanks are a text that is not empty, ends in no
/// space, and has those words.
pub proof fn lemma_words_of_joined(words: Seq<Seq<char>>)
    requires
        are_words(words),
        words.len() > 0,
    ensures
        join_words(words).len() > 0,
        !is_space(join_words(words).last()),
        words_of(join_words(words)) == words,
    decreases words.len(),
{
    let last = words.last();
    if words.len() == 1 {
        lemma_words_append_word(Seq::empty(), last);
    } else {
        let before = words.drop_last();
        lemma_words_of_joined(before);
        let front = join_words(before) + seq![' '];
        assert(front.drop_last() =~= join_words(before));
        lemma_words_append_word(front, last);
    }
}

/// Whether `c` separates words.
pub fn is_whitespace(c: char) -> (b: bool)
    ensures
        b == is_space(c),
{
    let n: u32 = c as u32;
    (0x09 <= n && n <= 0x0D) || n == 0x20 || n == 0x85 || n == 0xA0 || n == 0x1680 || (0x2000 <= n
        && n <= 0x200A) || n == 0x2028 || n == 0x2029 || n == 0x202F || n == 0x205F || n == 0x3000
}

/// `c` in lower case, where it is an upper-case ASCII letter.
pub(crate) fn to_lower(c: char) -> (r: char)
    ensures
        r == lower_char(c),
{
    if c >= 'A' && c <= 'Z' {
        ((c as u8) + 32) as char
    } else {
        c
    }
}

/// The characters of `s`, one by one.
pub(crate) fn chars_of(s: &str) -> (v: Vec<char>)
    ensures
        v@ == s@,
{
    let mut v: Vec<char> = Vec::new();
    for c in it: s.chars()
        invariant
            v@ == it.seq().take(it.index() as int),
            it.seq() == s@,
    {
        v.push(c);
    }
    v
}

/// The string made of the characters `v[from..to]`.
pub(crate) fn text_of(v: &Vec<char>, from: usize, to: usize) -> (s: String)
    requires
        from <= to <= v.len(),
    ensures
        s@ == v@.subrange(from as int, to as int),
{
    let mut s = String::new();
    let mut i: usize = from;
    while i < to
        invariant
            from <= i <= to <= v.len(),
            s@ == v@.subrange(from as int, i as int),
        decreases to - i,
    {
        s.push(v[i]);
        i += 1;
    }
    s
}

/// A copy of each string of `v`.
pub(crate) fn copy_texts(v: &Vec<String>) -> (r: Vec<String>)
    ensures
        texts(r@) == texts(v@),
{
    let mut r: Vec<String> = Vec::new();
    let mut i: usize = 0;
    while i < v.len()
        invariant
            i <= v.len(),
            r.len() == i,
            forall|j: int| 0 <= j < i ==> r[j]@ == v[j]@,
        decreases v.len() - i,
    {
        r.push(v[i].clone());
        i += 1;
    }
    r
}

/// Counts the opening brackets in `text`.
pub fn count_brackets(text: &str) -> (n: usize)
    ensures
        n == brackets_in(text@),
{
    let cs = chars_of(text);
    let mut n: usize = 0;
    let mut i: usize = 0;
    assert(cs@.take(0) =~= Seq::<char>::empty());
    while i < cs.len()
        invariant
            i <= cs.len(),
            n <= i,
            n == brackets_in(cs@.take(i as int)),
        decreases cs.len() - i,
    {
        assert(cs@.take(i + 1).drop_last() =~= cs@.take(i as int));
        if cs[i] == '(' {
            n += 1;
        }
        i += 1;
    }
    assert(cs@.take(i as int) =~= cs@);
    n
}

/// The label under which `text` is shown: its title-case form, or `text` as
/// it is where it holds more opening brackets than `MAX_BRACKETS`.
pub fn label_of(text: &str) -> (label: String)
    ensures
        label@ == label_text(text@),
{
    if count_brackets(text) <= MAX_BRACKETS {
        title_case(text)
    } else {
        text.to_owned()
    }
}

/// Whether `a` and `b` hold the same characters.
pub fn same_text(a: &str, b: &str) -> (r: bool)
    ensures
        r == (a@ == b@),
{
    let x = chars_of(a);
    let y = chars_of(b);
    if x.len() != y.len() {
        return false;
    }
    let mut i: usize = 0;
    while i < x.len()
        invariant
            i <= x.len(),
            x.len() == y.len(),
            x@ == a@,
            y@ == b@,
            forall|j: int| 0 <= j < i ==> x[j] == y[j],
        decreases x.len() - i,
    {
        if x[i] != y[i] {
            return false;
        }
        i += 1;
    }
    assert(a@ =~= b@);
    true
}

/// Whether `word` is `keyword` but for the case of its ASCII letters.
pub fn is_keyword(word: &str, keyword: &str) -> (r: bool)
    ensures
        r == (lower(word@) == keyword@),
{
    let x = chars_of(word);
    let y = chars_of(keyword);
    if x.len() != y.len() {
        return false;
    }
    let mut i: usize = 0;
    while i < x.len()
        invariant
            i <= x.len(),
            x.len() == y.len(),
            x@ == word@,
            y@ == keyword@,
            forall|j: int| 0 <= j < i ==> lower_char(x[j]) == y[j],
        decreases x.len() - i,
    {
        if to_lower(x[i]) != y[i] {
            return false;
        }
        i += 1;
    }
    assert(lower(word@) =~= keyword@);
    true
}

/// Splits `line` into its words.
pub fn split_words(line: &str) -> (words: Vec<String>)
    ensures
        texts(words@) == words_of(line@),
{
    let chars = chars_of(line);
    let mut words: Vec<String> = Vec::new();
    let mut start: usize = 0;
    let mut i: usize = 0;
    while i < chars.len()
        invariant
            start <= i <= chars.len(),
            chars@ == line@,
            forall|j: int| start <= j < i ==> !is_space(#[trigger] chars[j]),
            start > 0 ==> is_space(chars[start - 1]),
            start < i ==> words_of(chars@.take(i as int)) == texts(words@).push(
                chars@.subrange(start as int, i as int),
            ),
            start == i ==> words_of(chars@.take(i as int)) == texts(words@),
        decreases chars.len() - i,
    {
        let ghost before = chars@.take(i as int);
        let ghost now = chars@.take(i + 1);
        assert(now.drop_last() =~= before);
        if is_whitespace(chars[i]) {
            if start < i {
                let word = text_of(&chars, start, i);
                words.push(word);
            }
            start = i + 1;
        } else {
            proof {
                if start < i {
                    let prev = texts(words@).push(chars@.subrange(start as int, i as int));
                    assert(prev.last().push(now.last()) =~= chars@.subrange(
                        start as int,
                        i + 1,
                    ));
                } else {
                    assert(seq![now.last()] =~= chars@.subrange(start as int, i + 1));
                }
            }
        }
        i += 1;
    }
    assert(chars@.take(i as int) =~= chars@);
    if start < i {
        let word = text_of(&chars, start, i);
        words.push(word);
    }
    words
}

/// Joins `words[..count]` with single blanks.
pub(crate) fn join_first(words: &Vec<String>, count: usize) -> (s: String)
    requires
        count <= words.len(),
    ensures
        s@ == join_words(texts(words@).take(count as int)),
{
    let mut s = String::new();
    let mut i: usize = 0;
    while i < count
        invariant
            i <= count <= words.len(),
            s@ == join_words(texts(words@).take(i as int)),
        decreases count - i,
    {
        let ghost before = texts(words@).take(i as int);
        let ghost now = texts(words@).take(i + 1);
        assert(now.drop_last() =~= before);
        if i > 0 {
            s.push(' ');
        }
        s.append(words[i].as_str());
        i += 1;
    }
    s
}

} // verus!
